//! The raster buffer: 8-bit RGBA pixels, row-major, without row padding.

use vstd::prelude::*;

verus! {

/// What a raster is, mathematically: its dimensions and its bytes.
pub struct RasterView {
    pub width: nat,
    pub height: nat,
    pub data: Seq<u8>,
}

/// A contiguous 8-bit RGBA pixel array with explicit width and height.
/// The origin is the top-left corner and a row is `4 * width` bytes long.
#[derive(Debug, Clone, PartialEq, Eq)]
pub struct Raster {
    pub width: u32,
    pub height: u32,
    pub data: Vec<u8>,
}

/// A crop rectangle: inclusive left and top, exclusive right and bottom.
#[derive(Debug, Clone, Copy, PartialEq, Eq, Structural)]
pub struct CropBounds {
    pub left: u32,
    pub top: u32,
    pub right: u32,
    pub bottom: u32,
}

impl View for Raster {
    type V = RasterView;

    open spec fn view(&self) -> RasterView {
        RasterView { width: self.width as nat, height: self.height as nat, data: self.data@ }
    }
}

/// The number of bytes of an RGBA raster of the given dimensions.
pub open spec fn rgba_len(width: int, height: int) -> int {
    4 * (width * height)
}

/// The index of channel `c` of pixel `(x, y)` in a raster `width` pixels wide.
pub open spec fn byte_index(width: int, x: int, y: int, c: int) -> int {
    4 * (y * width + x) + c
}

/// The bytes of the first `rows` rows of a crop: of each source row the
/// bytes of the columns from `bounds.left` up to `bounds.right`.
pub open spec fn cropped_rows(data: Seq<u8>, width: int, bounds: CropBounds, rows: int) -> Seq<u8>
    decreases rows,
{
    if rows <= 0 {
        Seq::<u8>::empty()
    } else {
        cropped_rows(data, width, bounds, rows - 1) + data.subrange(
            byte_index(width, bounds.left as int, bounds.top + rows - 1, 0),
            byte_index(width, bounds.right as int, bounds.top + rows - 1, 0),
        )
    }
}

/// The crop of a picture to bounds that fit it.
pub open spec fn crop_view(img: RasterView, bounds: CropBounds) -> RasterView {
    RasterView {
        width: (bounds.right - bounds.left) as nat,
        height: (bounds.bottom - bounds.top) as nat,
        data: cropped_rows(img.data, img.width as int, bounds, bounds.bottom - bounds.top),
    }
}

impl CropBounds {
    /// Whether the rectangle is non-empty and lies inside a source of the
    /// given dimensions.
    pub open spec fn fits(&self, width: u32, height: u32) -> bool {
        &&& self.left < self.right <= width
        &&& self.top < self.bottom <= height
    }
}

/// `width * height` as a machine integer; the product of two `u32` always
/// fits in a `u64`.
pub fn pixel_count(width: u32, height: u32) -> (count: u64)
    ensures
        count == width as int * height as int,
{
    assert(width as int * height as int <= 0xffff_ffff * 0xffff_ffff) by (nonlinear_arith)
        requires
            0 <= width <= 0xffff_ffff,
            0 <= height <= 0xffff_ffff,
    ;
    width as u64 * height as u64
}

/// Row `y`, column `x` of a `width`-wide grid lies before the end of a grid
/// with `height` rows.
pub proof fn lemma_cell_in_grid(width: int, height: int, x: int, y: int)
    requires
        0 <= x < width,
        0 <= y < height,
    ensures
        0 <= y * width + x < width * height,
        y * width + width <= width * height,
        0 <= y * width,
{
    assert(y * width + width <= width * height && 0 <= y * width) by (nonlinear_arith)
        requires
            0 <= x < width,
            0 <= y < height,
    ;
}

impl Raster {
    /// The invariant of a raster: `len = 4 * width * height`.
    pub open spec fn wf(&self) -> bool {
        self.data@.len() == rgba_len(self.width as int, self.height as int)
    }

    /// Channel `c` (0 red, 1 green, 2 blue, 3 alpha) of pixel `(x, y)`.
    pub open spec fn channel(&self, x: int, y: int, c: int) -> u8 {
        self.data@[byte_index(self.width as int, x, y, c)]
    }

    /// Builds a raster over `data`, which must hold at least
    /// `4 * width * height` bytes; what lies beyond them is dropped.
    pub fn from_raw(width: u32, height: u32, data: Vec<u8>) -> (r: Option<Raster>)
        ensures
            r is Some <==> data@.len() >= rgba_len(width as int, height as int),
            r matches Some(img) ==> img.wf() && img.width == width && img.height == height
                && img.data@ == data@.subrange(0, rgba_len(width as int, height as int)),
    {
        let count: u64 = pixel_count(width, height);
        let have: usize = data.len();
        if count > (have / 4) as u64 {
            return None;
        }
        let need: usize = 4 * (count as usize);
        let mut data = data;
        data.truncate(need);
        Some(Raster { width, height, data })
    }

    /// The sub-rectangle `bounds` of this raster, or `None` when `bounds` is
    /// empty or reaches outside the raster.
    pub fn crop(&self, bounds: &CropBounds) -> (r: Option<Raster>)
        requires
            self.wf(),
        ensures
            r is Some <==> bounds.fits(self.width, self.height),
            r matches Some(out) ==> {
                &&& out.wf()
                &&& out@ == crop_view(self@, *bounds)
                &&& out.width == bounds.right - bounds.left
                &&& out.height == bounds.bottom - bounds.top
                &&& forall|x: int, y: int, c: int|
                    0 <= x < out.width && 0 <= y < out.height && 0 <= c < 4
                        ==> #[trigger] out.channel(x, y, c) == self.channel(
                        bounds.left + x,
                        bounds.top + y,
                        c,
                    )
            },
    {
        if !(bounds.left < bounds.right && bounds.right <= self.width && bounds.top
            < bounds.bottom && bounds.bottom <= self.height) {
            return None;
        }
        let width: u32 = bounds.right - bounds.left;
        let height: u32 = bounds.bottom - bounds.top;
        let src_width: usize = self.width as usize;
        let row_len: usize = width as usize;
        let total: usize = self.data.len();
        let mut data: Vec<u8> = Vec::new();
        let mut y: u32 = 0;
        while y < height
            invariant
                self.wf(),
                bounds.fits(self.width, self.height),
                width == bounds.right - bounds.left,
                height == bounds.bottom - bounds.top,
                src_width == self.width,
                row_len == width,
                total == self.data@.len(),
                y <= height,
                data@.len() == 4 * (y * width),
                data@ == cropped_rows(self.data@, self.width as int, *bounds, y as int),
                forall|x: int, row: int, c: int|
                    0 <= x < width && 0 <= row < y && 0 <= c < 4 ==> #[trigger] data@[byte_index(
                        width as int,
                        x,
                        row,
                        c,
                    )] == self.channel(bounds.left + x, bounds.top + row, c),
            decreases height - y,
        {
            let src_row: usize = (bounds.top + y) as usize;
            proof {
                lemma_cell_in_grid(
                    self.width as int,
                    self.height as int,
                    bounds.left as int,
                    src_row as int,
                );
                lemma_cell_in_grid(
                    self.width as int,
                    self.height as int,
                    bounds.right - 1,
                    src_row as int,
                );
            }
            let start: usize = 4 * (src_row * src_width + bounds.left as usize);
            let mut i: usize = 0;
            let ghost done = data@;
            while i < 4 * row_len
                invariant
                    self.wf(),
                    total == self.data@.len(),
                    row_len == width,
                    start == 4 * (src_row * src_width + bounds.left),
                    start + 4 * row_len <= total,
                    i <= 4 * row_len,
                    data@.len() == done.len() + i,
                    data@.subrange(0, done.len() as int) == done,
                    forall|j: int|
                        0 <= j < i ==> #[trigger] data@[done.len() + j] == self.data@[start + j],
                decreases 4 * row_len - i,
            {
                let ghost prev = data@;
                data.push(self.data[start + i]);
                proof {
                    assert(data@.subrange(0, done.len() as int) =~= prev.subrange(
                        0,
                        done.len() as int,
                    ));
                }
                i += 1;
            }
            proof {
                assert(4 * ((y + 1) * width) == 4 * (y * width) + 4 * width) by (nonlinear_arith);
                assert(byte_index(self.width as int, bounds.left as int, bounds.top + y, 0)
                    == start);
                assert(byte_index(self.width as int, bounds.right as int, bounds.top + y, 0)
                    == start + 4 * row_len) by (nonlinear_arith)
                    requires
                        start == 4 * (src_row * src_width + bounds.left),
                        src_row == bounds.top + y,
                        src_width == self.width,
                        row_len == bounds.right - bounds.left,
                ;
                let copied = self.data@.subrange(start as int, start + 4 * row_len);
                assert forall|k: int| 0 <= k < data@.len() implies data@[k] == (done + copied)[k] by {
                    if k < done.len() {
                        assert(data@.subrange(0, done.len() as int)[k] == data@[k]);
                    } else {
                        assert(data@[done.len() + (k - done.len())] == self.data@[start + (k
                            - done.len())]);
                    }
                }
                assert(data@ =~= done + copied);
                assert forall|x: int, row: int, c: int|
                    0 <= x < width && 0 <= row < y + 1 && 0 <= c < 4 implies #[trigger] data@[byte_index(
                    width as int,
                    x,
                    row,
                    c,
                )] == self.channel(bounds.left + x, bounds.top + row, c) by {
                    if row < y {
                        lemma_cell_in_grid(width as int, y as int, x, row);
                        assert(width as int * y as int == y as int * width as int)
                            by (nonlinear_arith);
                        assert(0 <= byte_index(width as int, x, row, c) < done.len());
                        assert(data@[byte_index(width as int, x, row, c)] == done[byte_index(
                            width as int,
                            x,
                            row,
                            c,
                        )]) by {
                            assert(data@.subrange(0, done.len() as int)[byte_index(
                                width as int,
                                x,
                                row,
                                c,
                            )] == data@[byte_index(width as int, x, row, c)]);
                        }
                    } else {
                        let j = 4 * x + c;
                        assert(byte_index(width as int, x, row, c) == done.len() + j)
                            by (nonlinear_arith)
                            requires
                                row == y,
                                done.len() == 4 * (y * width),
                                j == 4 * x + c,
                        ;
                        assert(byte_index(
                            self.width as int,
                            bounds.left + x,
                            bounds.top + row,
                            c,
                        ) == start + j) by (nonlinear_arith)
                            requires
                                row == y,
                                src_row == bounds.top + y,
                                src_width == self.width,
                                start == 4 * (src_row * src_width + bounds.left),
                                j == 4 * x + c,
                        ;
                        assert(data@[done.len() + j] == self.data@[start + j]);
                    }
                }
            }
            y += 1;
        }
        proof {
            assert(height as int * width as int == width as int * height as int)
                by (nonlinear_arith);
        }
        Some(Raster { width, height, data })
    }
}

} // verus!
