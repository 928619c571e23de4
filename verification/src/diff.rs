//! The sharp per-pixel difference of two rasters of equal size.

use vstd::prelude::*;
use crate::raster::{lemma_cell_in_grid, rgba_len};

verus! {

/// A differing pixel, in image coordinates.
#[derive(Debug, Clone, Copy, PartialEq, Eq, Structural)]
pub struct DiffPixel {
    pub x: u32,
    pub y: u32,
}

/// The distance between the bytes of `a` and `b` at index `at`.
pub open spec fn byte_gap(a: Seq<u8>, b: Seq<u8>, at: int) -> int {
    if a[at] >= b[at] {
        a[at] - b[at]
    } else {
        b[at] - a[at]
    }
}

/// The largest distance between pixel `p` of `a` and of `b` over the red,
/// green and blue channels.  Alpha is ignored.
pub open spec fn pixel_gap(a: Seq<u8>, b: Seq<u8>, p: int) -> int {
    let r = byte_gap(a, b, 4 * p);
    let g = byte_gap(a, b, 4 * p + 1);
    let bl = byte_gap(a, b, 4 * p + 2);
    if r >= g && r >= bl {
        r
    } else if g >= bl {
        g
    } else {
        bl
    }
}

/// Whether pixel `p` differs: its gap exceeds the threshold.
pub open spec fn pixel_differs(a: Seq<u8>, b: Seq<u8>, p: int, threshold: int) -> bool {
    pixel_gap(a, b, p) > threshold
}

/// The differing pixels of row `y` among its first `upto` columns, from left
/// to right.
pub open spec fn row_points(
    a: Seq<u8>,
    b: Seq<u8>,
    width: int,
    y: int,
    upto: int,
    threshold: int,
) -> Seq<DiffPixel>
    decreases upto,
{
    if upto <= 0 {
        Seq::<DiffPixel>::empty()
    } else {
        let before = row_points(a, b, width, y, upto - 1, threshold);
        if pixel_differs(a, b, y * width + upto - 1, threshold) {
            before.push(DiffPixel { x: (upto - 1) as u32, y: y as u32 })
        } else {
            before
        }
    }
}

/// The differing pixels of the first `rows` rows, in row-major order.
pub open spec fn image_points(
    a: Seq<u8>,
    b: Seq<u8>,
    width: int,
    rows: int,
    threshold: int,
) -> Seq<DiffPixel>
    decreases rows,
{
    if rows <= 0 {
        Seq::<DiffPixel>::empty()
    } else {
        image_points(a, b, width, rows - 1, threshold) + row_points(
            a,
            b,
            width,
            rows - 1,
            width,
            threshold,
        )
    }
}

/// Channel `c` of pixel `p` of the sharp difference image: opaque red where
/// the pixel differs, opaque black elsewhere.
pub open spec fn sharp_channel(a: Seq<u8>, b: Seq<u8>, p: int, c: int, threshold: int) -> u8 {
    if c == 3 || (c == 0 && pixel_differs(a, b, p, threshold)) {
        255u8
    } else {
        0u8
    }
}

/// The sharp difference image of the first `count` pixels.
pub open spec fn sharp_buffer(a: Seq<u8>, b: Seq<u8>, count: int, threshold: int) -> Seq<u8> {
    Seq::new((4 * count) as nat, |j: int| sharp_channel(a, b, j / 4, j % 4, threshold))
}

/// Whether pixel `p` differs, computed.
pub(crate) fn differs_at(a: &[u8], b: &[u8], p: usize, threshold: u8) -> (d: bool)
    requires
        4 * p + 4 <= a.len(),
        4 * p + 4 <= b.len(),
    ensures
        d == pixel_differs(a@, b@, p as int, threshold as int),
{
    let i: usize = 4 * p;
    let r: u8 = if a[i] >= b[i] {
        a[i] - b[i]
    } else {
        b[i] - a[i]
    };
    let g: u8 = if a[i + 1] >= b[i + 1] {
        a[i + 1] - b[i + 1]
    } else {
        b[i + 1] - a[i + 1]
    };
    let bl: u8 = if a[i + 2] >= b[i + 2] {
        a[i + 2] - b[i + 2]
    } else {
        b[i + 2] - a[i + 2]
    };
    r > threshold || g > threshold || bl > threshold
}

/// The sharp per-pixel difference of two RGBA buffers of `width` by
/// `height` pixels.
///
/// Returns the difference image, the number of differing pixels and the
/// differing pixels in row-major order.
pub fn diff_simple_core(a: &[u8], b: &[u8], width: u32, height: u32, threshold: u8) -> (r: (
    Vec<u8>,
    usize,
    Vec<DiffPixel>,
))
    requires
        a.len() == rgba_len(width as int, height as int),
        b.len() == rgba_len(width as int, height as int),
    ensures
        r.0@ == sharp_buffer(a@, b@, width as int * height as int, threshold as int),
        r.2@ == image_points(a@, b@, width as int, height as int, threshold as int),
        r.1 == r.2@.len(),
{
    let total: usize = a.len();
    let mut buf: Vec<u8> = Vec::new();
    let mut points: Vec<DiffPixel> = Vec::new();
    let mut p: usize = 0;
    let mut y: u32 = 0;
    while y < height
        invariant
            a.len() == rgba_len(width as int, height as int),
            b.len() == rgba_len(width as int, height as int),
            y <= height,
            p == y * width,
            buf@ == sharp_buffer(a@, b@, p as int, threshold as int),
            points@ == image_points(a@, b@, width as int, y as int, threshold as int),
            points@.len() <= p,
        decreases height - y,
    {
        let ghost above = points@;
        let mut x: u32 = 0;
        while x < width
            invariant
                a.len() == rgba_len(width as int, height as int),
                b.len() == rgba_len(width as int, height as int),
                y < height,
                x <= width,
                p == y * width + x,
                buf@ == sharp_buffer(a@, b@, p as int, threshold as int),
                points@ == above + row_points(
                    a@,
                    b@,
                    width as int,
                    y as int,
                    x as int,
                    threshold as int,
                ),
                points@.len() <= p,
            decreases width - x,
        {
            proof {
                lemma_cell_in_grid(width as int, height as int, x as int, y as int);
            }
            let ghost prev = buf@;
            let ghost found = points@;
            let hit: bool = differs_at(a, b, p, threshold);
            if hit {
                buf.push(255);
                points.push(DiffPixel { x, y });
            } else {
                buf.push(0);
            }
            buf.push(0);
            buf.push(0);
            buf.push(255);
            proof {
                let next = sharp_buffer(a@, b@, p + 1, threshold as int);
                assert forall|j: int| 0 <= j < next.len() implies buf@[j] == next[j] by {
                    if j < 4 * p {
                        assert(buf@[j] == prev[j]);
                    } else {
                        assert(j / 4 == p);
                        assert(j % 4 == j - 4 * p);
                    }
                }
                assert(buf@ =~= next);
                assert(points@ =~= above + row_points(
                    a@,
                    b@,
                    width as int,
                    y as int,
                    x + 1,
                    threshold as int,
                ));
            }
            x += 1;
            p += 1;
        }
        proof {
            assert((y + 1) * width == y * width + width) by (nonlinear_arith);
        }
        y += 1;
    }
    proof {
        assert(height as int * width as int == width as int * height as int)
            by (nonlinear_arith);
    }
    let count: usize = points.len();
    (buf, count, points)
}

/// Self-diff, row by row: a buffer compared with itself has no differing
/// pixel in any row.
proof fn lemma_self_diff_row(a: Seq<u8>, width: int, y: int, upto: int, threshold: int)
    requires
        0 <= threshold,
    ensures
        row_points(a, a, width, y, upto, threshold) == Seq::<DiffPixel>::empty(),
    decreases upto,
{
    if upto > 0 {
        lemma_self_diff_row(a, width, y, upto - 1, threshold);
    }
}

/// Self-diff: for every buffer and every threshold, the buffer compared with
/// itself has no differing pixel, and its difference image is opaque black
/// throughout.
pub proof fn lemma_self_diff(a: Seq<u8>, width: int, height: int, threshold: int)
    requires
        0 <= threshold,
    ensures
        image_points(a, a, width, height, threshold) == Seq::<DiffPixel>::empty(),
        forall|p: int, c: int| #[trigger]
            sharp_channel(a, a, p, c, threshold) == (if c == 3 {
                255u8
            } else {
                0u8
            }),
    decreases height,
{
    if height > 0 {
        lemma_self_diff(a, width, height - 1, threshold);
        lemma_self_diff_row(a, width, height - 1, width, threshold);
    }
}

/// Threshold monotonicity, row by row.
proof fn lemma_threshold_monotone_row(
    a: Seq<u8>,
    b: Seq<u8>,
    width: int,
    y: int,
    upto: int,
    low: int,
    high: int,
)
    requires
        low <= high,
    ensures
        row_points(a, b, width, y, upto, high).len() <= row_points(a, b, width, y, upto, low).len(),
    decreases upto,
{
    if upto > 0 {
        lemma_threshold_monotone_row(a, b, width, y, upto - 1, low, high);
    }
}

/// Threshold monotonicity: for the same pair of buffers, raising the
/// threshold never raises the number of differing pixels.
pub proof fn lemma_threshold_monotone(
    a: Seq<u8>,
    b: Seq<u8>,
    width: int,
    height: int,
    low: int,
    high: int,
)
    requires
        low <= high,
    ensures
        image_points(a, b, width, height, high).len() <= image_points(
            a,
            b,
            width,
            height,
            low,
        ).len(),
    decreases height,
{
    if height > 0 {
        lemma_threshold_monotone(a, b, width, height - 1, low, high);
        lemma_threshold_monotone_row(a, b, width, height - 1, width, low, high);
    }
}

/// Commutativity, row by row.
proof fn lemma_diff_symmetric_row(
    a: Seq<u8>,
    b: Seq<u8>,
    width: int,
    y: int,
    upto: int,
    threshold: int,
)
    ensures
        row_points(a, b, width, y, upto, threshold) == row_points(b, a, width, y, upto, threshold),
    decreases upto,
{
    if upto > 0 {
        lemma_diff_symmetric_row(a, b, width, y, upto - 1, threshold);
    }
}

/// Commutativity: swapping the two buffers changes neither the differing
/// pixels, and so not their number, nor the difference image.
pub proof fn lemma_diff_symmetric(a: Seq<u8>, b: Seq<u8>, width: int, height: int, threshold: int)
    ensures
        image_points(a, b, width, height, threshold) == image_points(
            b,
            a,
            width,
            height,
            threshold,
        ),
        sharp_buffer(a, b, width * height, threshold) == sharp_buffer(
            b,
            a,
            width * height,
            threshold,
        ),
    decreases height,
{
    if height > 0 {
        lemma_diff_symmetric(a, b, width, height - 1, threshold);
        lemma_diff_symmetric_row(a, b, width, height - 1, width, threshold);
    }
    assert(sharp_buffer(a, b, width * height, threshold) =~= sharp_buffer(
        b,
        a,
        width * height,
        threshold,
    ));
}

} // verus!
