//! The density-weighted heatmap difference of two rasters of equal size.
//!
//! A pixel counts where it differs and where differing pixels are dense
//! around it.  Densities are kept as exact fractions, hits over window
//! area, so every comparison below is a comparison of integers.

use vstd::prelude::*;
use crate::diff::{pixel_differs, DiffPixel};
use crate::raster::{lemma_cell_in_grid, rgba_len};

verus! {

/// The radius of the density window: a pixel is weighed over the 31 by 31
/// pixels around it, clipped to the image.
pub const WINDOW_RADIUS: u32 = 15;

/// The mask of differing pixels: 1 where pixel `p` differs, 0 elsewhere.
pub open spec fn hit_mask(a: Seq<u8>, b: Seq<u8>, count: int, threshold: int) -> Seq<u8> {
    Seq::new(
        count as nat,
        |p: int|
            if pixel_differs(a, b, p, threshold) {
                1u8
            } else {
                0u8
            },
    )
}

/// Whether `mask` is a binary mask over a `width` by `height` image.
pub open spec fn is_mask(mask: Seq<u8>, width: int, height: int) -> bool {
    &&& mask.len() == width * height
    &&& forall|p: int| 0 <= p < mask.len() ==> #[trigger] mask[p] <= 1
}

/// The index of column `x` of row `y` in a grid with rows of `stride` cells.
pub open spec fn cell(stride: int, y: int, x: int) -> int {
    y * stride + x
}

/// The number of hits in row `y` on the columns from `x1` up to, not
/// including, `x2`.
pub open spec fn span_hits(mask: Seq<u8>, width: int, y: int, x1: int, x2: int) -> int
    decreases x2 - x1,
{
    if x2 <= x1 {
        0
    } else {
        span_hits(mask, width, y, x1, x2 - 1) + mask[cell(width, y, x2 - 1)] as int
    }
}

/// The number of hits in the rectangle of the rows from `y1` up to, not
/// including, `y2` and the columns from `x1` up to, not including, `x2`.
pub open spec fn rect_hits(mask: Seq<u8>, width: int, y1: int, y2: int, x1: int, x2: int) -> int
    decreases y2 - y1,
{
    if y2 <= y1 {
        0
    } else {
        rect_hits(mask, width, y1, y2 - 1, x1, x2) + span_hits(mask, width, y2 - 1, x1, x2)
    }
}

/// The number of hits above row `y` and left of column `x`: the entry of the
/// summed-area table at `(y, x)`.
pub open spec fn area_hits(mask: Seq<u8>, width: int, y: int, x: int) -> int {
    rect_hits(mask, width, 0, y, 0, x)
}

/// The first column or row of the window around coordinate `at`.
pub open spec fn window_low(at: int) -> int {
    if at >= WINDOW_RADIUS {
        at - WINDOW_RADIUS
    } else {
        0
    }
}

/// The last column or row of the window around coordinate `at` on an axis
/// of `extent` pixels.
pub open spec fn window_high(at: int, extent: int) -> int {
    if at + WINDOW_RADIUS < extent {
        at + WINDOW_RADIUS
    } else {
        extent - 1
    }
}

/// The number of hits in the window around pixel `(x, y)`.
pub open spec fn window_hits(mask: Seq<u8>, width: int, height: int, x: int, y: int) -> int {
    rect_hits(
        mask,
        width,
        window_low(y),
        window_high(y, height) + 1,
        window_low(x),
        window_high(x, width) + 1,
    )
}

/// The number of pixels in the window around pixel `(x, y)`.
pub open spec fn window_area(width: int, height: int, x: int, y: int) -> int {
    (window_high(x, width) - window_low(x) + 1) * (window_high(y, height) - window_low(y) + 1)
}

/// A span holds between zero hits and one hit per column.
pub proof fn lemma_span_bounds(mask: Seq<u8>, width: int, height: int, y: int, x1: int, x2: int)
    requires
        is_mask(mask, width, height),
        0 <= y < height,
        0 <= x1 <= x2 <= width,
    ensures
        0 <= span_hits(mask, width, y, x1, x2) <= x2 - x1,
    decreases x2 - x1,
{
    if x2 > x1 {
        lemma_span_bounds(mask, width, height, y, x1, x2 - 1);
        lemma_cell_in_grid(width, height, x2 - 1, y);
        assert(mask[cell(width, y, x2 - 1)] <= 1);
    }
}

/// A rectangle holds between zero hits and one hit per pixel.
pub proof fn lemma_rect_bounds(
    mask: Seq<u8>,
    width: int,
    height: int,
    y1: int,
    y2: int,
    x1: int,
    x2: int,
)
    requires
        is_mask(mask, width, height),
        0 <= y1 <= y2 <= height,
        0 <= x1 <= x2 <= width,
    ensures
        0 <= rect_hits(mask, width, y1, y2, x1, x2) <= (y2 - y1) * (x2 - x1),
    decreases y2 - y1,
{
    if y2 > y1 {
        lemma_rect_bounds(mask, width, height, y1, y2 - 1, x1, x2);
        lemma_span_bounds(mask, width, height, y2 - 1, x1, x2);
        assert((y2 - 1 - y1) * (x2 - x1) + (x2 - x1) == (y2 - y1) * (x2 - x1))
            by (nonlinear_arith);
    } else {
        assert((y2 - y1) * (x2 - x1) == 0) by (nonlinear_arith)
            requires
                y2 - y1 == 0,
        ;
    }
}

/// A span is the difference of two spans that start at column 0.
proof fn lemma_span_split(mask: Seq<u8>, width: int, y: int, x1: int, x2: int)
    requires
        0 <= x1 <= x2,
    ensures
        span_hits(mask, width, y, x1, x2) == span_hits(mask, width, y, 0, x2) - span_hits(
            mask,
            width,
            y,
            0,
            x1,
        ),
    decreases x2 - x1,
{
    if x2 > x1 {
        lemma_span_split(mask, width, y, x1, x2 - 1);
    }
}

/// A rectangle is the difference of two rectangles that start at column 0.
proof fn lemma_rect_split_columns(mask: Seq<u8>, width: int, y1: int, y2: int, x1: int, x2: int)
    requires
        0 <= x1 <= x2,
    ensures
        rect_hits(mask, width, y1, y2, x1, x2) == rect_hits(mask, width, y1, y2, 0, x2)
            - rect_hits(mask, width, y1, y2, 0, x1),
    decreases y2 - y1,
{
    if y2 > y1 {
        lemma_rect_split_columns(mask, width, y1, y2 - 1, x1, x2);
        lemma_span_split(mask, width, y2 - 1, x1, x2);
    }
}

/// A rectangle is the difference of two rectangles that start at row 0.
proof fn lemma_rect_split_rows(mask: Seq<u8>, width: int, y1: int, y2: int, x: int)
    requires
        0 <= y1 <= y2,
    ensures
        rect_hits(mask, width, y1, y2, 0, x) == area_hits(mask, width, y2, x) - area_hits(
            mask,
            width,
            y1,
            x,
        ),
    decreases y2 - y1,
{
    if y2 > y1 {
        lemma_rect_split_rows(mask, width, y1, y2 - 1, x);
    }
}

/// Four samples of the summed-area table give the hits of any rectangle.
pub proof fn lemma_rect_from_areas(mask: Seq<u8>, width: int, y1: int, y2: int, x1: int, x2: int)
    requires
        0 <= y1 <= y2,
        0 <= x1 <= x2,
    ensures
        rect_hits(mask, width, y1, y2, x1, x2) == area_hits(mask, width, y2, x2) - area_hits(
            mask,
            width,
            y1,
            x2,
        ) - area_hits(mask, width, y2, x1) + area_hits(mask, width, y1, x1),
{
    lemma_rect_split_columns(mask, width, y1, y2, x1, x2);
    lemma_rect_split_rows(mask, width, y1, y2, x2);
    lemma_rect_split_rows(mask, width, y1, y2, x1);
}

/// The table is zero on its first row and its first column.
proof fn lemma_area_edges(mask: Seq<u8>, width: int, y: int, x: int)
    requires
        0 <= y,
    ensures
        area_hits(mask, width, 0, x) == 0,
        area_hits(mask, width, y, 0) == 0,
    decreases y,
{
    if y > 0 {
        lemma_area_edges(mask, width, y - 1, x);
    }
}

/// Two cells of a grid with the same index are the same cell.
proof fn lemma_cell_unique(stride: int, y1: int, x1: int, y2: int, x2: int)
    requires
        0 <= x1 < stride,
        0 <= x2 < stride,
        0 <= y1,
        0 <= y2,
        cell(stride, y1, x1) == cell(stride, y2, x2),
    ensures
        y1 == y2,
        x1 == x2,
{
    assert(y1 == y2) by (nonlinear_arith)
        requires
            0 <= x1 < stride,
            0 <= x2 < stride,
            y1 * stride + x1 == y2 * stride + x2,
    ;
}

/// The mask of differing pixels of two RGBA buffers.
fn build_mask(a: &[u8], b: &[u8], count: usize, threshold: u8) -> (mask: Vec<u8>)
    requires
        a.len() == 4 * count,
        b.len() == 4 * count,
    ensures
        mask@ == hit_mask(a@, b@, count as int, threshold as int),
{
    let mut mask: Vec<u8> = Vec::new();
    let mut p: usize = 0;
    while p < count
        invariant
            a.len() == 4 * count,
            b.len() == 4 * count,
            p <= count,
            mask@ == hit_mask(a@, b@, p as int, threshold as int),
        decreases count - p,
    {
        let hit: bool = crate::diff::differs_at(a, b, p, threshold);
        mask.push(
            if hit {
                1
            } else {
                0
            },
        );
        proof {
            assert(mask@ =~= hit_mask(a@, b@, p + 1, threshold as int));
        }
        p += 1;
    }
    mask
}

/// The summed-area table of `mask`, `height + 1` rows of `width + 1`
/// entries.  Each entry follows from the one to its left, the one above and
/// the one above to the left, so the table is built in one sequential pass.
fn build_integral(mask: &Vec<u8>, width: usize, height: usize) -> (table: Vec<usize>)
    requires
        is_mask(mask@, width as int, height as int),
        1 <= width,
        1 <= height,
        4 * (width * height) <= usize::MAX,
    ensures
        table@.len() == (width + 1) * (height + 1),
        forall|y: int, x: int|
            0 <= y <= height && 0 <= x <= width ==> table@[#[trigger] cell(width + 1, y, x)]
                == area_hits(mask@, width as int, y, x),
{
    proof {
        assert((width + 1) * (height + 1) <= 4 * (width * height) && width + 1 <= 4 * (width
            * height)) by (nonlinear_arith)
            requires
                1 <= width,
                1 <= height,
        ;
    }
    let stride: usize = width + 1;
    let mut table: Vec<usize> = Vec::new();
    let mut x: usize = 0;
    while x < stride
        invariant
            stride == width + 1,
            x <= stride,
            table@.len() == x,
            forall|i: int| 0 <= i < x ==> table@[i] == 0,
        decreases stride - x,
    {
        table.push(0);
        x += 1;
    }
    proof {
        assert forall|yy: int, xx: int|
            0 <= yy && 0 <= xx <= width && cell(stride as int, yy, xx)
                < table@.len() implies table@[#[trigger] cell(stride as int, yy, xx)] == area_hits(
            mask@,
            width as int,
            yy,
            xx,
        ) by {
            assert(yy == 0) by (nonlinear_arith)
                requires
                    0 <= yy,
                    0 <= xx,
                    yy * stride + xx < stride,
            ;
            lemma_area_edges(mask@, width as int, 0, xx);
        }
    }
    let mut y: usize = 0;
    while y < height
        invariant
            is_mask(mask@, width as int, height as int),
            stride == width + 1,
            (width + 1) * (height + 1) <= 4 * (width * height),
            4 * (width * height) <= usize::MAX,
            y <= height,
            table@.len() == (y + 1) * stride,
            forall|yy: int, xx: int|
                0 <= yy && 0 <= xx <= width && cell(stride as int, yy, xx) < table@.len()
                    ==> table@[#[trigger] cell(stride as int, yy, xx)] == area_hits(
                    mask@,
                    width as int,
                    yy,
                    xx,
                ),
        decreases height - y,
    {
        proof {
            assert((y + 2) * stride <= (height + 1) * stride) by (nonlinear_arith)
                requires
                    y + 2 <= height + 1,
                    0 <= stride,
            ;
            assert((y + 2) * stride == (y + 1) * stride + stride) by (nonlinear_arith);
            assert((y + 1) * stride == y * stride + stride) by (nonlinear_arith);
            assert((width + 1) * (height + 1) == (height + 1) * stride) by (nonlinear_arith)
                requires
                    stride == width + 1,
            ;
            lemma_area_edges(mask@, width as int, y + 1, 0);
        }
        let ghost old_table = table@;
        table.push(0);
        proof {
            assert forall|yy: int, xx: int|
                0 <= yy && 0 <= xx <= width && cell(stride as int, yy, xx)
                    < table@.len() implies table@[#[trigger] cell(stride as int, yy, xx)]
                == area_hits(mask@, width as int, yy, xx) by {
                if cell(stride as int, yy, xx) == old_table.len() {
                    assert(cell(stride as int, y + 1, 0) == old_table.len());
                    lemma_cell_unique(stride as int, yy, xx, y + 1, 0);
                } else {
                    assert(table@[cell(stride as int, yy, xx)] == old_table[cell(
                        stride as int,
                        yy,
                        xx,
                    )]);
                }
            }
        }
        let mut x: usize = 0;
        while x < width
            invariant
                is_mask(mask@, width as int, height as int),
                stride == width + 1,
                4 * (width * height) <= usize::MAX,
                y < height,
                x <= width,
                (y + 2) * stride <= usize::MAX,
                (y + 2) * stride == (y + 1) * stride + stride,
                (y + 1) * stride == y * stride + stride,
                table@.len() == (y + 1) * stride + x + 1,
                forall|yy: int, xx: int|
                    0 <= yy && 0 <= xx <= width && cell(stride as int, yy, xx) < table@.len()
                        ==> table@[#[trigger] cell(stride as int, yy, xx)] == area_hits(
                        mask@,
                        width as int,
                        yy,
                        xx,
                    ),
            decreases width - x,
        {
            let at: usize = table.len();
            proof {
                lemma_cell_in_grid(width as int, height as int, x as int, y as int);
                assert(cell(stride as int, y + 1, x as int) == at - 1);
                assert(cell(stride as int, y as int, x + 1) == at - stride);
                assert(cell(stride as int, y as int, x as int) == at - stride - 1);
                lemma_rect_bounds(mask@, width as int, height as int, 0, y + 1, 0, x + 1);
                lemma_rect_bounds(mask@, width as int, height as int, 0, y as int, 0, x as int);
                lemma_rect_bounds(mask@, width as int, height as int, 0, y as int, 0, x + 1);
                lemma_rect_bounds(mask@, width as int, height as int, 0, y + 1, 0, x as int);
                lemma_span_bounds(mask@, width as int, height as int, y as int, 0, x as int);
                assert((y + 1) * (x + 1) <= (height + 1) * stride) by (nonlinear_arith)
                    requires
                        0 <= y < height,
                        0 <= x < stride,
                ;
                assert((y + 2) * stride <= (height + 1) * stride) by (nonlinear_arith)
                    requires
                        y + 2 <= height + 1,
                        0 <= stride,
                ;
                assert(cell(width as int, y as int, x as int) == y * width + x);
                assert((y + 1) * (x + 1) <= width * height && (y + 1) * x <= width * height && y
                    * (x + 1) <= width * height) by (nonlinear_arith)
                    requires
                        0 <= y < height,
                        0 <= x < width,
                ;
            }
            let hit: usize = mask[y * width + x] as usize;
            let left: usize = table[at - 1];
            let above: usize = table[at - stride];
            let corner: usize = table[at - stride - 1];
            let value: usize = hit + left + above - corner;
            let ghost old_table = table@;
            table.push(value);
            proof {
                assert(value == area_hits(mask@, width as int, y + 1, x + 1));
                assert forall|yy: int, xx: int|
                    0 <= yy && 0 <= xx <= width && cell(stride as int, yy, xx)
                        < table@.len() implies table@[#[trigger] cell(stride as int, yy, xx)]
                    == area_hits(mask@, width as int, yy, xx) by {
                    if cell(stride as int, yy, xx) == old_table.len() {
                        assert(cell(stride as int, y + 1, x + 1) == old_table.len());
                        lemma_cell_unique(stride as int, yy, xx, y + 1, x + 1);
                    } else {
                        assert(table@[cell(stride as int, yy, xx)] == old_table[cell(
                            stride as int,
                            yy,
                            xx,
                        )]);
                    }
                }
            }
            x += 1;
        }
        y += 1;
    }
    proof {
        assert((width + 1) * (height + 1) == (height + 1) * stride) by (nonlinear_arith)
            requires
                stride == width + 1,
        ;
        assert forall|yy: int, xx: int| 0 <= yy <= height && 0 <= xx <= width implies cell(
            stride as int,
            yy,
            xx,
        ) < table@.len() by {
            lemma_cell_in_grid(stride as int, height + 1, xx, yy);
            assert(stride * (height + 1) == (height + 1) * stride) by (nonlinear_arith);
        }
    }
    table
}

/// A local density as an exact fraction: `hits` differing pixels among the
/// `area` pixels of a window.
pub struct Density {
    pub hits: int,
    pub area: int,
}

/// The density of the window around pixel `(x, y)`.
pub open spec fn density_at(mask: Seq<u8>, width: int, height: int, x: int, y: int) -> Density {
    Density {
        hits: window_hits(mask, width, height, x, y),
        area: window_area(width, height, x, y),
    }
}

/// Whether the fraction `d` is greater than the fraction `e`.
pub open spec fn denser(d: Density, e: Density) -> bool {
    d.hits * e.area > e.hits * d.area
}

/// The greatest density among `seed` and the first `upto` pixels of row `y`;
/// of equal densities the earlier one is kept.
pub open spec fn peak_in_row(
    mask: Seq<u8>,
    width: int,
    height: int,
    y: int,
    upto: int,
    seed: Density,
) -> Density
    decreases upto,
{
    if upto <= 0 {
        seed
    } else {
        let before = peak_in_row(mask, width, height, y, upto - 1, seed);
        let here = density_at(mask, width, height, upto - 1, y);
        if denser(here, before) {
            here
        } else {
            before
        }
    }
}

/// The greatest density among the pixels of the first `rows` rows, or zero
/// where there is no pixel.
pub open spec fn peak_density(mask: Seq<u8>, width: int, height: int, rows: int) -> Density
    decreases rows,
{
    if rows <= 0 {
        Density { hits: 0, area: 1 }
    } else {
        peak_in_row(
            mask,
            width,
            height,
            rows - 1,
            width,
            peak_density(mask, width, height, rows - 1),
        )
    }
}

/// Whether the density exceeds the floor of 0.05.
pub open spec fn is_dense(d: Density) -> bool {
    20 * d.hits > d.area
}

/// The numerator of `d` normalised by `peak`: `d / peak` is
/// `heat_num / heat_den`.
pub open spec fn heat_num(d: Density, peak: Density) -> int {
    d.hits * peak.area
}

/// The denominator of `d` normalised by `peak`.
pub open spec fn heat_den(d: Density, peak: Density) -> int {
    d.area * peak.hits
}

/// Whether the normalised density is below 0.3: the cool band.
pub open spec fn is_cool(d: Density, peak: Density) -> bool {
    10 * heat_num(d, peak) < 3 * heat_den(d, peak)
}

/// Whether the normalised density is at least 0.6: the hot band.
pub open spec fn is_hot(d: Density, peak: Density) -> bool {
    10 * heat_num(d, peak) >= 6 * heat_den(d, peak)
}

/// Channel `c` (0 red, 1 green, 2 blue) of the heat colour of a normalised
/// density `n = heat_num / heat_den`, each value rounded down:
/// below 0.3 it is `(0, n / 0.3 * 200, 200)`; below 0.6, with
/// `t = (n - 0.3) / 0.3`, it is `(t * 255, 200 + t * 55, (1 - t) * 200)`;
/// from 0.6 on, with `t = (n - 0.6) / 0.4`, it is `(255, (1 - t) * 255, 0)`.
pub open spec fn heat_color(d: Density, peak: Density, c: int) -> int {
    let num = heat_num(d, peak);
    let den = heat_den(d, peak);
    if is_cool(d, peak) {
        if c == 0 {
            0
        } else if c == 1 {
            (2000 * num) / (3 * den)
        } else {
            200
        }
    } else if !is_hot(d, peak) {
        let rise = 10 * num - 3 * den;
        if c == 0 {
            (255 * rise) / (3 * den)
        } else if c == 1 {
            200 + (55 * rise) / (3 * den)
        } else {
            (200 * (6 * den - 10 * num)) / (3 * den)
        }
    } else {
        if c == 0 {
            255
        } else if c == 1 {
            (255 * (10 * den - 10 * num)) / (4 * den)
        } else {
            0
        }
    }
}

/// Whether pixel `(x, y)` is coloured: it differs and its density exceeds
/// the floor of 0.05.
pub open spec fn is_lit(mask: Seq<u8>, width: int, height: int, x: int, y: int) -> bool {
    mask[cell(width, y, x)] == 1 && is_dense(density_at(mask, width, height, x, y))
}

/// Whether pixel `(x, y)` is counted as high density: it is coloured and
/// its density, normalised by the greatest density of the image, is at
/// least 0.6.
pub open spec fn is_counted(mask: Seq<u8>, width: int, height: int, x: int, y: int) -> bool {
    is_lit(mask, width, height, x, y) && is_hot(
        density_at(mask, width, height, x, y),
        peak_density(mask, width, height, height),
    )
}

/// The four bytes of pixel `(x, y)` of the heatmap: its heat colour where it
/// is coloured, opaque black elsewhere.
pub open spec fn heat_pixel(mask: Seq<u8>, width: int, height: int, x: int, y: int) -> Seq<u8> {
    let d = density_at(mask, width, height, x, y);
    let peak = peak_density(mask, width, height, height);
    if is_lit(mask, width, height, x, y) {
        seq![
            heat_color(d, peak, 0) as u8,
            heat_color(d, peak, 1) as u8,
            heat_color(d, peak, 2) as u8,
            255u8,
        ]
    } else {
        seq![0u8, 0u8, 0u8, 255u8]
    }
}

/// The bytes of the first `upto` pixels of row `y` of the heatmap.
pub open spec fn heat_row(mask: Seq<u8>, width: int, height: int, y: int, upto: int) -> Seq<u8>
    decreases upto,
{
    if upto <= 0 {
        Seq::<u8>::empty()
    } else {
        heat_row(mask, width, height, y, upto - 1) + heat_pixel(mask, width, height, upto - 1, y)
    }
}

/// The bytes of the first `rows` rows of the heatmap.
pub open spec fn heat_rows(mask: Seq<u8>, width: int, height: int, rows: int) -> Seq<u8>
    decreases rows,
{
    if rows <= 0 {
        Seq::<u8>::empty()
    } else {
        heat_rows(mask, width, height, rows - 1) + heat_row(mask, width, height, rows - 1, width)
    }
}

/// The counted pixels of row `y` among its first `upto` columns.
pub open spec fn hot_row_points(
    mask: Seq<u8>,
    width: int,
    height: int,
    y: int,
    upto: int,
) -> Seq<DiffPixel>
    decreases upto,
{
    if upto <= 0 {
        Seq::<DiffPixel>::empty()
    } else {
        let before = hot_row_points(mask, width, height, y, upto - 1);
        if is_counted(mask, width, height, upto - 1, y) {
            before.push(DiffPixel { x: (upto - 1) as u32, y: y as u32 })
        } else {
            before
        }
    }
}

/// The counted pixels of the first `rows` rows, in row-major order.
pub open spec fn hot_points(mask: Seq<u8>, width: int, height: int, rows: int) -> Seq<DiffPixel>
    decreases rows,
{
    if rows <= 0 {
        Seq::<DiffPixel>::empty()
    } else {
        hot_points(mask, width, height, rows - 1) + hot_row_points(
            mask,
            width,
            height,
            rows - 1,
            width,
        )
    }
}

/// Whether `d` is a fraction of a window: some hits among one to 961 pixels.
pub open spec fn is_window_density(d: Density) -> bool {
    0 <= d.hits <= d.area && 1 <= d.area <= 961
}

/// The fraction that a pair of machine integers, hits and area, stands for.
pub open spec fn fraction(pair: (u64, u64)) -> Density {
    Density { hits: pair.0 as int, area: pair.1 as int }
}

/// The density of a pixel of the image is a fraction of a window.
pub proof fn lemma_density_bounds(mask: Seq<u8>, width: int, height: int, x: int, y: int)
    requires
        is_mask(mask, width, height),
        0 <= x < width,
        0 <= y < height,
    ensures
        is_window_density(density_at(mask, width, height, x, y)),
{
    let x1 = window_low(x);
    let x2 = window_high(x, width) + 1;
    let y1 = window_low(y);
    let y2 = window_high(y, height) + 1;
    lemma_rect_bounds(mask, width, height, y1, y2, x1, x2);
    assert((y2 - y1) * (x2 - x1) == (x2 - x1) * (y2 - y1)) by (nonlinear_arith);
    assert(1 <= (x2 - x1) * (y2 - y1) <= 961) by (nonlinear_arith)
        requires
            1 <= x2 - x1 <= 31,
            1 <= y2 - y1 <= 31,
    ;
}

/// The order of fractions is transitive.
proof fn lemma_density_order(d: Density, e: Density, f: Density)
    requires
        is_window_density(d),
        is_window_density(e),
        is_window_density(f),
        !denser(d, e),
        !denser(e, f),
    ensures
        !denser(d, f),
{
    assert(d.hits * e.area * f.area <= e.hits * d.area * f.area) by (nonlinear_arith)
        requires
            d.hits * e.area <= e.hits * d.area,
            0 <= f.area,
    ;
    assert(e.hits * f.area * d.area <= f.hits * e.area * d.area) by (nonlinear_arith)
        requires
            e.hits * f.area <= f.hits * e.area,
            0 <= d.area,
    ;
    assert(e.hits * d.area * f.area == e.hits * f.area * d.area) by (nonlinear_arith);
    assert(d.hits * e.area * f.area == (d.hits * f.area) * e.area) by (nonlinear_arith);
    assert(f.hits * e.area * d.area == (f.hits * d.area) * e.area) by (nonlinear_arith);
    assert(d.hits * f.area <= f.hits * d.area) by (nonlinear_arith)
        requires
            (d.hits * f.area) * e.area <= (f.hits * d.area) * e.area,
            1 <= e.area,
    ;
}

/// The peak of a row is a window fraction, no less than the seed and no
/// less than any pixel scanned.
proof fn lemma_peak_in_row(
    mask: Seq<u8>,
    width: int,
    height: int,
    y: int,
    upto: int,
    seed: Density,
    x: int,
)
    requires
        is_mask(mask, width, height),
        0 <= y < height,
        0 <= upto <= width,
        is_window_density(seed),
    ensures
        is_window_density(peak_in_row(mask, width, height, y, upto, seed)),
        !denser(seed, peak_in_row(mask, width, height, y, upto, seed)),
        0 <= x < upto ==> !denser(
            density_at(mask, width, height, x, y),
            peak_in_row(mask, width, height, y, upto, seed),
        ),
    decreases upto,
{
    if upto > 0 {
        let before = peak_in_row(mask, width, height, y, upto - 1, seed);
        let here = density_at(mask, width, height, upto - 1, y);
        lemma_peak_in_row(mask, width, height, y, upto - 1, seed, x);
        lemma_density_bounds(mask, width, height, upto - 1, y);
        if denser(here, before) {
            lemma_density_order(seed, before, here);
            if 0 <= x < upto - 1 {
                lemma_density_bounds(mask, width, height, x, y);
                lemma_density_order(density_at(mask, width, height, x, y), before, here);
            }
        }
    }
}

/// The peak of the first `rows` rows is a window fraction, no less than any
/// pixel of those rows.
pub proof fn lemma_peak_density(mask: Seq<u8>, width: int, height: int, rows: int, x: int, y: int)
    requires
        is_mask(mask, width, height),
        0 <= rows <= height,
    ensures
        is_window_density(peak_density(mask, width, height, rows)),
        0 <= x < width && 0 <= y < rows ==> !denser(
            density_at(mask, width, height, x, y),
            peak_density(mask, width, height, rows),
        ),
    decreases rows,
{
    if rows > 0 {
        let seed = peak_density(mask, width, height, rows - 1);
        lemma_peak_density(mask, width, height, rows - 1, x, y);
        if width >= 0 {
            lemma_peak_in_row(mask, width, height, rows - 1, width, seed, x);
            if 0 <= x < width && 0 <= y < rows - 1 {
                lemma_density_bounds(mask, width, height, x, y);
                lemma_density_order(
                    density_at(mask, width, height, x, y),
                    seed,
                    peak_density(mask, width, height, rows),
                );
            }
        }
    }
}

/// A quotient is bounded by the factor that bounds its dividend.
proof fn lemma_quotient_at_most(a: int, d: int, k: int)
    requires
        0 <= a <= k * d,
        0 < d,
    ensures
        0 <= a / d <= k,
{
    vstd::arithmetic::div_mod::lemma_div_is_ordered(a, k * d, d);
    vstd::arithmetic::div_mod::lemma_div_multiples_vanish(k, d);
    vstd::arithmetic::div_mod::lemma_div_pos_is_pos(a, d);
    assert(k * d == d * k) by (nonlinear_arith);
}

/// A quotient stays below the factor that strictly bounds its dividend.
proof fn lemma_quotient_below(a: int, d: int, k: int)
    requires
        0 <= a < k * d,
        0 < d,
    ensures
        0 <= a / d < k,
{
    vstd::arithmetic::div_mod::lemma_fundamental_div_mod(a, d);
    vstd::arithmetic::div_mod::lemma_div_pos_is_pos(a, d);
    let q = a / d;
    assert(q < k) by (nonlinear_arith)
        requires
            a == d * q + a % d,
            0 <= a % d,
            a < k * d,
            0 < d,
    ;
}

/// Whether a table holds the summed areas of a mask.
pub open spec fn is_integral(table: Seq<usize>, mask: Seq<u8>, width: int, height: int) -> bool {
    &&& table.len() == (width + 1) * (height + 1)
    &&& forall|y: int, x: int|
        0 <= y <= height && 0 <= x <= width ==> table[#[trigger] cell(width + 1, y, x)]
            == area_hits(mask, width, y, x)
}

/// The four samples of the table around a rectangle lie inside the table,
/// stay within the number of pixels, and give the hits of the rectangle.
proof fn lemma_window_samples(
    table: Seq<usize>,
    mask: Seq<u8>,
    width: int,
    height: int,
    x1: int,
    x2: int,
    y1: int,
    y2: int,
)
    requires
        is_mask(mask, width, height),
        is_integral(table, mask, width, height),
        0 <= x1 <= x2 <= width,
        0 <= y1 <= y2 <= height,
    ensures
        0 <= cell(width + 1, y2, x2) < table.len(),
        0 <= cell(width + 1, y1, x1) < table.len(),
        0 <= cell(width + 1, y1, x2) < table.len(),
        0 <= cell(width + 1, y2, x1) < table.len(),
        table[cell(width + 1, y2, x2)] <= width * height,
        table[cell(width + 1, y1, x1)] <= width * height,
        table[cell(width + 1, y2, x2)] + table[cell(width + 1, y1, x1)] - table[cell(
            width + 1,
            y1,
            x2,
        )] - table[cell(width + 1, y2, x1)] == rect_hits(mask, width, y1, y2, x1, x2),
        table[cell(width + 1, y2, x2)] + table[cell(width + 1, y1, x1)] >= table[cell(
            width + 1,
            y1,
            x2,
        )] + table[cell(width + 1, y2, x1)],
        0 <= rect_hits(mask, width, y1, y2, x1, x2) <= (y2 - y1) * (x2 - x1),
{
    lemma_cell_in_grid(width + 1, height + 1, x2, y2);
    lemma_cell_in_grid(width + 1, height + 1, x1, y2);
    lemma_cell_in_grid(width + 1, height + 1, x2, y1);
    lemma_cell_in_grid(width + 1, height + 1, x1, y1);
    lemma_rect_from_areas(mask, width, y1, y2, x1, x2);
    lemma_rect_bounds(mask, width, height, y1, y2, x1, x2);
    lemma_rect_bounds(mask, width, height, 0, y2, 0, x2);
    lemma_rect_bounds(mask, width, height, 0, y1, 0, x1);
    assert(y2 * x2 <= width * height && y1 * x1 <= width * height) by (nonlinear_arith)
        requires
            0 <= y1 <= y2 <= height,
            0 <= x1 <= x2 <= width,
    ;
    assert(table[cell(width + 1, y2, x2)] == area_hits(mask, width, y2, x2));
    assert(table[cell(width + 1, y1, x1)] == area_hits(mask, width, y1, x1));
    assert(table[cell(width + 1, y1, x2)] == area_hits(mask, width, y1, x2));
    assert(table[cell(width + 1, y2, x1)] == area_hits(mask, width, y2, x1));
}

/// The density of the window around pixel `(x, y)`, from four samples of
/// the summed-area table.
#[verifier::rlimit(30)]
fn window_density(
    table: &Vec<usize>,
    mask: &Vec<u8>,
    width: usize,
    height: usize,
    x: usize,
    y: usize,
) -> (d: (u64, u64))
    requires
        is_mask(mask@, width as int, height as int),
        is_integral(table@, mask@, width as int, height as int),
        4 * (width * height) <= usize::MAX,
        x < width,
        y < height,
    ensures
        fraction(d) == density_at(mask@, width as int, height as int, x as int, y as int),
        is_window_density(fraction(d)),
{
    proof {
        assert(width <= width * height && height <= width * height) by (nonlinear_arith)
            requires
                1 <= width,
                1 <= height,
        ;
    }
    let radius: usize = WINDOW_RADIUS as usize;
    let stride: usize = width + 1;
    let x1: usize = if x >= radius {
        x - radius
    } else {
        0
    };
    let y1: usize = if y >= radius {
        y - radius
    } else {
        0
    };
    let x2: usize = if x + radius < width {
        x + radius + 1
    } else {
        width
    };
    let y2: usize = if y + radius < height {
        y + radius + 1
    } else {
        height
    };
    proof {
        lemma_window_samples(
            table@,
            mask@,
            width as int,
            height as int,
            x1 as int,
            x2 as int,
            y1 as int,
            y2 as int,
        );
        lemma_density_bounds(mask@, width as int, height as int, x as int, y as int);
        assert((x2 - x1) * (y2 - y1) <= 961) by (nonlinear_arith)
            requires
                1 <= x2 - x1 <= 31,
                1 <= y2 - y1 <= 31,
        ;
        assert(0 <= y2 * stride && 0 <= y1 * stride) by (nonlinear_arith)
            requires
                0 <= y1,
                0 <= y2,
                0 <= stride,
        ;
    }
    let entries: usize = table.len();
    let low: usize = y1 * stride;
    let high: usize = y2 * stride;
    let area: usize = (x2 - x1) * (y2 - y1);
    let hits: usize = table[high + x2] + table[low + x1] - table[low + x2] - table[high + x1];
    (hits as u64, area as u64)
}

/// The greatest density of the image.
fn find_peak(table: &Vec<usize>, mask: &Vec<u8>, width: usize, height: usize) -> (peak: (u64, u64))
    requires
        is_mask(mask@, width as int, height as int),
        is_integral(table@, mask@, width as int, height as int),
        4 * (width * height) <= usize::MAX,
    ensures
        fraction(peak) == peak_density(
            mask@,
            width as int,
            height as int,
            height as int,
        ),
{
    let mut peak: (u64, u64) = (0, 1);
    let mut y: usize = 0;
    while y < height
        invariant
            is_mask(mask@, width as int, height as int),
            is_integral(table@, mask@, width as int, height as int),
            4 * (width * height) <= usize::MAX,
            y <= height,
            peak.0 <= 961,
            peak.1 <= 961,
            fraction(peak) == peak_density(
                mask@,
                width as int,
                height as int,
                y as int,
            ),
        decreases height - y,
    {
        let ghost seed = peak_density(mask@, width as int, height as int, y as int);
        let mut x: usize = 0;
        while x < width
            invariant
                is_mask(mask@, width as int, height as int),
                is_integral(table@, mask@, width as int, height as int),
                4 * (width * height) <= usize::MAX,
                y < height,
                x <= width,
                peak.0 <= 961,
                peak.1 <= 961,
                fraction(peak) == peak_in_row(
                    mask@,
                    width as int,
                    height as int,
                    y as int,
                    x as int,
                    seed,
                ),
            decreases width - x,
        {
            let d: (u64, u64) = window_density(table, mask, width, height, x, y);
            proof {
                assert(d.0 * peak.1 <= 961 * 961 && peak.0 * d.1 <= 961 * 961)
                    by (nonlinear_arith)
                    requires
                        0 <= d.0 <= 961,
                        0 <= d.1 <= 961,
                        0 <= peak.0 <= 961,
                        0 <= peak.1 <= 961,
                ;
            }
            if d.0 * peak.1 > peak.0 * d.1 {
                peak = d;
            }
            x += 1;
        }
        y += 1;
    }
    peak
}

/// The heat colour of a coloured pixel of density `d` under the peak `peak`.
fn heat_rgb(d: (u64, u64), peak: (u64, u64)) -> (c: (u8, u8, u8))
    requires
        is_window_density(fraction(d)),
        is_window_density(fraction(peak)),
        1 <= d.0,
        !denser(
            fraction(d),
            fraction(peak),
        ),
    ensures
        c.0 == heat_color(
            fraction(d),
            fraction(peak),
            0,
        ),
        c.1 == heat_color(
            fraction(d),
            fraction(peak),
            1,
        ),
        c.2 == heat_color(
            fraction(d),
            fraction(peak),
            2,
        ),
{
    proof {
        assert(d.0 * peak.1 <= 961 * 961 && d.1 * peak.0 <= 961 * 961 && 1 <= d.0 * peak.1)
            by (nonlinear_arith)
            requires
                1 <= d.0 <= 961,
                1 <= d.1 <= 961,
                0 <= peak.0 <= 961,
                1 <= peak.1 <= 961,
        ;
        assert(peak.0 * d.1 == d.1 * peak.0) by (nonlinear_arith);
    }
    let num: u64 = d.0 * peak.1;
    let den: u64 = d.1 * peak.0;
    if 10 * num < 3 * den {
        proof {
            lemma_quotient_below(2000 * num, 3 * den, 200);
        }
        (0, ((2000 * num) / (3 * den)) as u8, 200)
    } else if 10 * num < 6 * den {
        let rise: u64 = 10 * num - 3 * den;
        proof {
            lemma_quotient_below(255 * rise, 3 * den, 255);
            lemma_quotient_below(55 * rise, 3 * den, 55);
            lemma_quotient_at_most(200 * (6 * den - 10 * num), 3 * den, 200);
        }
        (
            ((255 * rise) / (3 * den)) as u8,
            (200 + (55 * rise) / (3 * den)) as u8,
            ((200 * (6 * den - 10 * num)) / (3 * den)) as u8,
        )
    } else {
        proof {
            lemma_quotient_at_most(255 * (10 * den - 10 * num), 4 * den, 255);
        }
        (255, ((255 * (10 * den - 10 * num)) / (4 * den)) as u8, 0)
    }
}

/// An image without columns has an empty heatmap and no counted pixel.
proof fn lemma_no_columns(mask: Seq<u8>, height: int, rows: int)
    ensures
        heat_rows(mask, 0, height, rows) == Seq::<u8>::empty(),
        hot_points(mask, 0, height, rows) == Seq::<DiffPixel>::empty(),
    decreases rows,
{
    if rows > 0 {
        lemma_no_columns(mask, height, rows - 1);
    }
}

/// The density-weighted heatmap difference of two RGBA buffers of `width`
/// by `height` pixels.
///
/// Returns the heatmap, the number of high-density pixels and those pixels
/// in row-major order.  A pixel is coloured where it differs by more than
/// the threshold and more than 0.05 of its window differs too; it is
/// counted where, besides, its density is at least 0.6 of the greatest
/// density of the image.
pub fn diff_heatmap_core(a: &[u8], b: &[u8], width: u32, height: u32, threshold: u8) -> (r: (
    Vec<u8>,
    usize,
    Vec<DiffPixel>,
))
    requires
        a.len() == rgba_len(width as int, height as int),
        b.len() == rgba_len(width as int, height as int),
    ensures
        ({
            let mask = hit_mask(a@, b@, width as int * height as int, threshold as int);
            &&& r.0@ == heat_rows(mask, width as int, height as int, height as int)
            &&& r.2@ == hot_points(mask, width as int, height as int, height as int)
            &&& r.1 == r.2@.len()
        }),
{
    let mut buf: Vec<u8> = Vec::new();
    let mut points: Vec<DiffPixel> = Vec::new();
    if width == 0 || height == 0 {
        proof {
            let mask = hit_mask(a@, b@, width as int * height as int, threshold as int);
            lemma_no_columns(mask, height as int, height as int);
        }
        return (buf, 0, points);
    }
    let w: usize = width as usize;
    let h: usize = height as usize;
    let count: usize = a.len() / 4;
    let mask: Vec<u8> = build_mask(a, b, count, threshold);
    proof {
        assert(mask@.len() == w * h);
    }
    let table: Vec<usize> = build_integral(&mask, w, h);
    let peak: (u64, u64) = find_peak(&table, &mask, w, h);
    let mut p: usize = 0;
    let mut y: u32 = 0;
    while y < height
        invariant
            w == width,
            h == height,
            is_mask(mask@, w as int, h as int),
            is_integral(table@, mask@, w as int, h as int),
            4 * (w * h) <= usize::MAX,
            fraction(peak) == peak_density(mask@, w as int, h as int, h as int),
            y <= height,
            p == y * width,
            buf@ == heat_rows(mask@, w as int, h as int, y as int),
            points@ == hot_points(mask@, w as int, h as int, y as int),
        decreases height - y,
    {
        let ghost rows_done = buf@;
        let ghost above = points@;
        let mut x: u32 = 0;
        while x < width
            invariant
                w == width,
                h == height,
                is_mask(mask@, w as int, h as int),
                is_integral(table@, mask@, w as int, h as int),
                4 * (w * h) <= usize::MAX,
                fraction(peak) == peak_density(mask@, w as int, h as int, h as int),
                y < height,
                x <= width,
                p == y * width + x,
                buf@ == rows_done + heat_row(mask@, w as int, h as int, y as int, x as int),
                points@ == above + hot_row_points(
                    mask@,
                    w as int,
                    h as int,
                    y as int,
                    x as int,
                ),
            decreases width - x,
        {
            proof {
                lemma_cell_in_grid(w as int, h as int, x as int, y as int);
                lemma_peak_density(mask@, w as int, h as int, h as int, x as int, y as int);
                assert(cell(w as int, y as int, x as int) == p);
            }
            let ghost row_done = buf@;
            let ghost found = points@;
            let d: (u64, u64) = window_density(&table, &mask, w, h, x as usize, y as usize);
            if mask[p] == 1 && 20 * d.0 > d.1 {
                proof {
                    assert(d.0 * peak.1 <= 961 * 961 && d.1 * peak.0 <= 961 * 961)
                        by (nonlinear_arith)
                        requires
                            0 <= d.0 <= 961,
                            0 <= d.1 <= 961,
                            0 <= peak.0 <= 961,
                            0 <= peak.1 <= 961,
                    ;
                }
                let c: (u8, u8, u8) = heat_rgb(d, peak);
                buf.push(c.0);
                buf.push(c.1);
                buf.push(c.2);
                buf.push(255);
                if 10 * (d.0 * peak.1) >= 6 * (d.1 * peak.0) {
                    points.push(DiffPixel { x, y });
                }
            } else {
                buf.push(0);
                buf.push(0);
                buf.push(0);
                buf.push(255);
            }
            proof {
                assert(buf@ =~= row_done + heat_pixel(
                    mask@,
                    w as int,
                    h as int,
                    x as int,
                    y as int,
                ));
                assert(buf@ =~= rows_done + heat_row(mask@, w as int, h as int, y as int, x + 1));
                assert(points@ =~= above + hot_row_points(
                    mask@,
                    w as int,
                    h as int,
                    y as int,
                    x + 1,
                ));
            }
            x += 1;
            p += 1;
        }
        proof {
            assert((y + 1) * width == y * width + width) by (nonlinear_arith);
        }
        y += 1;
    }
    let high: usize = points.len();
    (buf, high, points)
}

/// The number of counted pixels among the first `upto` pixels of row `y`.
pub open spec fn counted_in_row(mask: Seq<u8>, width: int, height: int, y: int, upto: int) -> int
    decreases upto,
{
    if upto <= 0 {
        0
    } else {
        counted_in_row(mask, width, height, y, upto - 1) + (if is_counted(
            mask,
            width,
            height,
            upto - 1,
            y,
        ) {
            1int
        } else {
            0int
        })
    }
}

/// The number of counted pixels in the first `rows` rows.
pub open spec fn counted_total(mask: Seq<u8>, width: int, height: int, rows: int) -> int
    decreases rows,
{
    if rows <= 0 {
        0
    } else {
        counted_total(mask, width, height, rows - 1) + counted_in_row(
            mask,
            width,
            height,
            rows - 1,
            width,
        )
    }
}

/// Heatmap gating, row by row.
proof fn lemma_hot_row(mask: Seq<u8>, width: int, height: int, y: int, upto: int, i: int)
    requires
        0 <= upto <= width <= 0x1_0000_0000,
        0 <= y < height <= 0x1_0000_0000,
    ensures
        hot_row_points(mask, width, height, y, upto).len() == counted_in_row(
            mask,
            width,
            height,
            y,
            upto,
        ),
        0 <= i < hot_row_points(mask, width, height, y, upto).len() ==> {
            let p = hot_row_points(mask, width, height, y, upto)[i];
            p.y == y && p.x < upto && is_counted(mask, width, height, p.x as int, p.y as int)
        },
    decreases upto,
{
    if upto > 0 {
        lemma_hot_row(mask, width, height, y, upto - 1, i);
    }
}

/// Heatmap gating: the number of high-density pixels is the number of
/// pixels that differ, whose density exceeds 0.05 and whose normalised
/// density is at least 0.6; and each high-density pixel is such a pixel of
/// the image.
pub proof fn lemma_heatmap_gating(mask: Seq<u8>, width: int, height: int, rows: int, i: int)
    requires
        0 <= width <= 0x1_0000_0000,
        0 <= rows <= height <= 0x1_0000_0000,
    ensures
        hot_points(mask, width, height, rows).len() == counted_total(mask, width, height, rows),
        0 <= i < hot_points(mask, width, height, rows).len() ==> {
            let p = hot_points(mask, width, height, rows)[i];
            p.y < rows && p.x < width && is_counted(mask, width, height, p.x as int, p.y as int)
        },
    decreases rows,
{
    if rows > 0 {
        lemma_heatmap_gating(mask, width, height, rows - 1, i);
        let above = hot_points(mask, width, height, rows - 1);
        lemma_hot_row(mask, width, height, rows - 1, width, i - above.len());
    }
}

/// Whether every pixel of the rectangle of the columns from `x1` up to
/// `x2` and the rows from `y1` up to `y2` differs.
pub open spec fn is_filled(mask: Seq<u8>, width: int, x1: int, x2: int, y1: int, y2: int) -> bool {
    forall|x: int, y: int| x1 <= x < x2 && y1 <= y < y2 ==> mask[#[trigger] cell(width, y, x)] == 1
}

/// A span of differing pixels holds one hit per column.
proof fn lemma_span_filled(mask: Seq<u8>, width: int, y: int, x1: int, x2: int)
    requires
        x1 <= x2,
        forall|x: int| x1 <= x < x2 ==> mask[#[trigger] cell(width, y, x)] == 1,
    ensures
        span_hits(mask, width, y, x1, x2) == x2 - x1,
    decreases x2 - x1,
{
    if x2 > x1 {
        lemma_span_filled(mask, width, y, x1, x2 - 1);
        assert(mask[cell(width, y, x2 - 1)] == 1);
    }
}

/// A rectangle of differing pixels holds one hit per pixel.
proof fn lemma_rect_filled(mask: Seq<u8>, width: int, y1: int, y2: int, x1: int, x2: int)
    requires
        x1 <= x2,
        y1 <= y2,
        is_filled(mask, width, x1, x2, y1, y2),
    ensures
        rect_hits(mask, width, y1, y2, x1, x2) == (x2 - x1) * (y2 - y1),
    decreases y2 - y1,
{
    if y2 > y1 {
        assert(is_filled(mask, width, x1, x2, y1, y2 - 1));
        lemma_rect_filled(mask, width, y1, y2 - 1, x1, x2);
        lemma_span_filled(mask, width, y2 - 1, x1, x2);
        assert((x2 - x1) * (y2 - 1 - y1) + (x2 - x1) == (x2 - x1) * (y2 - y1))
            by (nonlinear_arith);
    } else {
        assert((x2 - x1) * (y2 - y1) == 0) by (nonlinear_arith)
            requires
                y2 - y1 == 0,
        ;
    }
}

/// A differing pixel whose whole window differs is counted: its density is
/// 1, which no density exceeds.
pub proof fn lemma_full_window_is_counted(mask: Seq<u8>, width: int, height: int, x: int, y: int)
    requires
        is_mask(mask, width, height),
        0 <= x < width,
        0 <= y < height,
        is_filled(
            mask,
            width,
            window_low(x),
            window_high(x, width) + 1,
            window_low(y),
            window_high(y, height) + 1,
        ),
    ensures
        is_counted(mask, width, height, x, y),
{
    let d = density_at(mask, width, height, x, y);
    let peak = peak_density(mask, width, height, height);
    lemma_rect_filled(
        mask,
        width,
        window_low(y),
        window_high(y, height) + 1,
        window_low(x),
        window_high(x, width) + 1,
    );
    lemma_density_bounds(mask, width, height, x, y);
    lemma_peak_density(mask, width, height, height, x, y);
    assert(d.hits == d.area);
    assert(mask[cell(width, y, x)] == 1);
    assert(10 * (d.hits * peak.area) >= 6 * (d.area * peak.hits)) by (nonlinear_arith)
        requires
            d.hits == d.area,
            1 <= d.area,
            0 <= peak.hits <= peak.area,
    ;
}

/// A row holds at least as many counted pixels as it holds in a span of
/// counted pixels.
proof fn lemma_counted_span(
    mask: Seq<u8>,
    width: int,
    height: int,
    y: int,
    x1: int,
    x2: int,
    upto: int,
)
    requires
        0 <= x1 <= x2,
        x1 <= upto,
        forall|x: int| x1 <= x < x2 ==> #[trigger] is_counted(mask, width, height, x, y),
    ensures
        counted_in_row(mask, width, height, y, upto) >= (if upto <= x2 {
            upto - x1
        } else {
            x2 - x1
        }),
        counted_in_row(mask, width, height, y, upto) >= 0,
    decreases upto,
{
    if upto > x1 {
        lemma_counted_span(mask, width, height, y, x1, x2, upto - 1);
        if upto <= x2 {
            assert(is_counted(mask, width, height, upto - 1, y));
        }
    } else {
        lemma_counted_row_floor(mask, width, height, y, upto);
    }
}

/// A row holds no less than zero counted pixels.
proof fn lemma_counted_row_floor(mask: Seq<u8>, width: int, height: int, y: int, upto: int)
    ensures
        counted_in_row(mask, width, height, y, upto) >= 0,
    decreases upto,
{
    if upto > 0 {
        lemma_counted_row_floor(mask, width, height, y, upto - 1);
    }
}

/// The image holds at least as many counted pixels as it holds in a
/// rectangle of counted pixels.
pub proof fn lemma_counted_rectangle(
    mask: Seq<u8>,
    width: int,
    height: int,
    x1: int,
    x2: int,
    y1: int,
    y2: int,
    rows: int,
)
    requires
        0 <= x1 <= x2 <= width,
        0 <= y1 <= y2,
        y1 <= rows,
        forall|x: int, y: int|
            x1 <= x < x2 && y1 <= y < y2 ==> #[trigger] is_counted(mask, width, height, x, y),
    ensures
        counted_total(mask, width, height, rows) >= (x2 - x1) * (if rows <= y2 {
            rows - y1
        } else {
            y2 - y1
        }),
        counted_total(mask, width, height, rows) >= 0,
    decreases rows,
{
    if rows > y1 {
        lemma_counted_rectangle(mask, width, height, x1, x2, y1, y2, rows - 1);
        if rows <= y2 {
            lemma_counted_span(mask, width, height, rows - 1, x1, x2, width);
            assert((x2 - x1) * (rows - 1 - y1) + (x2 - x1) == (x2 - x1) * (rows - y1))
                by (nonlinear_arith);
        } else {
            lemma_counted_row_floor(mask, width, height, rows - 1, width);
        }
    } else {
        lemma_counted_floor(mask, width, height, rows);
        assert((x2 - x1) * (rows - y1) <= 0) by (nonlinear_arith)
            requires
                0 <= x2 - x1,
                rows - y1 <= 0,
        ;
    }
}

/// The image holds no less than zero counted pixels.
proof fn lemma_counted_floor(mask: Seq<u8>, width: int, height: int, rows: int)
    ensures
        counted_total(mask, width, height, rows) >= 0,
    decreases rows,
{
    if rows > 0 {
        lemma_counted_floor(mask, width, height, rows - 1);
        lemma_counted_row_floor(mask, width, height, rows - 1, width);
    }
}

/// A filled rectangle is found: where every pixel of a rectangle of at
/// least 31 by 31 pixels differs, the pixels further than 15 from its edge
/// are all counted, so the number of high-density pixels is at least
/// `(across - 30) * (down - 30)`, which is 1 or more.
pub proof fn lemma_filled_rectangle_is_found(
    mask: Seq<u8>,
    width: int,
    height: int,
    x1: int,
    x2: int,
    y1: int,
    y2: int,
)
    requires
        is_mask(mask, width, height),
        0 <= x1 && x1 + 31 <= x2 <= width <= 0x1_0000_0000,
        0 <= y1 && y1 + 31 <= y2 <= height <= 0x1_0000_0000,
        is_filled(mask, width, x1, x2, y1, y2),
    ensures
        hot_points(mask, width, height, height).len() >= (x2 - x1 - 30) * (y2 - y1 - 30),
        hot_points(mask, width, height, height).len() >= 1,
{
    assert forall|x: int, y: int|
        x1 + 15 <= x < x2 - 15 && y1 + 15 <= y < y2 - 15 implies #[trigger] is_counted(
        mask,
        width,
        height,
        x,
        y,
    ) by {
        assert(is_filled(
            mask,
            width,
            window_low(x),
            window_high(x, width) + 1,
            window_low(y),
            window_high(y, height) + 1,
        ));
        lemma_full_window_is_counted(mask, width, height, x, y);
    }
    lemma_counted_rectangle(mask, width, height, x1 + 15, x2 - 15, y1 + 15, y2 - 15, height);
    lemma_heatmap_gating(mask, width, height, height, 0);
    assert((x2 - x1 - 30) * (y2 - y1 - 30) >= 1) by (nonlinear_arith)
        requires
            x2 - x1 - 30 >= 1,
            y2 - y1 - 30 >= 1,
    ;
}

} // verus!
