//! The operations of the engine: open, normalise, difference, cluster and,
//! for the full variants, encode.
//!
//! Files come in as their content; reading them is the caller's part.

use vstd::prelude::*;
use vstd::string::StrSliceExecFns;
use crate::cluster::{
    all_near, cluster_markers, clusters_to, lemma_no_points_no_markers,
    lemma_touching_points_one_marker, near, DiffMarker,
};
use crate::codec::{
    decode_raster, decoded_file, encode_preview_data_url, encode_rgba_to_data_url,
    encode_to_data_url, is_raster, png_url, preview_url, resize_exact, resized,
    rgba_url, Filter,
};
use crate::diff::{
    diff_simple_core, image_points, lemma_diff_symmetric, lemma_self_diff,
    lemma_threshold_monotone, sharp_buffer, DiffPixel,
};
use crate::error::EngineError;
use crate::heatmap::{
    cell, diff_heatmap_core, heat_rows, hit_mask, hot_points, is_counted, is_filled, is_mask,
    lemma_filled_rectangle_is_found, lemma_heatmap_gating,
};
use crate::lpf::{
    decode_lpf_fallback, decode_lpf_to_image, lpf_decode, lpf_opened, rich_usable, rich_view,
    RichPicture,
};
use crate::raster::{crop_view, pixel_count, CropBounds, Raster, RasterView};

verus! {

/// A file as the engine takes it: its name, its content and, for a layered
/// picture file, what the rich decoder made of the content (`None` where
/// it was not asked, failed or gave up).
#[derive(Debug, Clone, PartialEq, Eq)]
pub struct SourceFile {
    pub path: String,
    pub bytes: Vec<u8>,
    pub rich: Option<RichPicture>,
}

/// The grid cell size of the sharp pipeline.
pub const SHARP_GRID: u32 = 200;

/// The minimum cluster size of the sharp pipeline.
pub const SHARP_MIN_CLUSTER: usize = 1;

/// The minimum marker radius of the sharp pipeline.
pub const SHARP_MIN_RADIUS: u32 = 300;

/// The grid cell size of the heatmap pipeline.
pub const HEAT_GRID: u32 = 250;

/// The minimum cluster size of the heatmap pipeline.
pub const HEAT_MIN_CLUSTER: usize = 20;

/// The minimum marker radius of the heatmap pipeline.
pub const HEAT_MIN_RADIUS: u32 = 80;

/// Whether a file name ends in `.lpf`, in any case of the letters.
pub open spec fn is_lpf_path(path: Seq<char>) -> bool {
    let n = path.len() as int;
    &&& n >= 4
    &&& path[n - 4] == '.'
    &&& (path[n - 3] == 'l' || path[n - 3] == 'L')
    &&& (path[n - 2] == 'p' || path[n - 2] == 'P')
    &&& (path[n - 1] == 'f' || path[n - 1] == 'F')
}

/// Whether a file name ends in `.lpf`, in any case of the letters.
pub fn has_lpf_extension(path: &str) -> (r: bool)
    ensures
        r == is_lpf_path(path@),
{
    let n: usize = path.unicode_len();
    if n < 4 {
        return false;
    }
    let dot: char = path.get_char(n - 4);
    let l: char = path.get_char(n - 3);
    let p: char = path.get_char(n - 2);
    let f: char = path.get_char(n - 1);
    dot == '.' && (l == 'l' || l == 'L') && (p == 'p' || p == 'P') && (f == 'f' || f == 'F')
}

/// What opening a file yields: a layered picture file, told by its name,
/// goes through the layered decoders, any other through the raster decoder.
pub open spec fn opened(file: SourceFile) -> Result<RasterView, EngineError> {
    if is_lpf_path(file.path@) {
        match lpf_opened(file.bytes@, file.rich) {
            Ok(img) => Ok(img),
            Err(e) => Err(EngineError::Format(e)),
        }
    } else {
        decoded_file(file.bytes@, file.path@)
    }
}

/// What opening a file as a layered picture file yields, whatever its
/// name.
pub open spec fn opened_as_lpf(file: SourceFile) -> Result<RasterView, EngineError> {
    match lpf_opened(file.bytes@, file.rich) {
        Ok(img) => Ok(img),
        Err(e) => Err(EngineError::Format(e)),
    }
}

/// Opens a file as a layered picture file, whatever its name.
pub fn decode_lpf_file(file: SourceFile) -> (r: Result<Raster, EngineError>)
    ensures
        is_raster(r, opened_as_lpf(file)),
{
    match decode_lpf_to_image(file.bytes.as_slice(), file.rich) {
        Ok(img) => Ok(img),
        Err(e) => Err(EngineError::Format(e)),
    }
}

/// Opens a file into a flattened RGBA raster.
pub fn decode_image_file(file: SourceFile) -> (r: Result<Raster, EngineError>)
    ensures
        is_raster(r, opened(file)),
{
    if has_lpf_extension(file.path.as_str()) {
        decode_lpf_file(file)
    } else {
        decode_raster(file.bytes.as_slice(), file.path.as_str())
    }
}

/// The greater of two dimensions.
pub open spec fn larger(a: nat, b: nat) -> u32 {
    if a >= b {
        a as u32
    } else {
        b as u32
    }
}

/// The two pictures brought to one size, the greater width by the greater
/// height, with the triangle filter; a picture of that size stays as it is.
pub open spec fn normalized_pair(a: RasterView, b: RasterView) -> Result<
    (RasterView, RasterView),
    EngineError,
> {
    let width = larger(a.width, b.width);
    let height = larger(a.height, b.height);
    match resized(a, width, height, Filter::Triangle) {
        Err(e) => Err(e),
        Ok(first) => match resized(b, width, height, Filter::Triangle) {
            Err(e) => Err(e),
            Ok(second) => Ok((first, second)),
        },
    }
}

/// Brings two rasters to one size.
pub fn normalize_pair(a: &Raster, b: &Raster) -> (r: Result<(Raster, Raster), EngineError>)
    requires
        a.wf(),
        b.wf(),
    ensures
        match r {
            Ok(pair) => {
                &&& pair.0.wf()
                &&& pair.1.wf()
                &&& pair.0.width == pair.1.width
                &&& pair.0.height == pair.1.height
                &&& normalized_pair(a@, b@) == Ok::<(RasterView, RasterView), EngineError>(
                    (pair.0@, pair.1@),
                )
            },
            Err(e) => normalized_pair(a@, b@) == Err::<(RasterView, RasterView), EngineError>(e),
        },
{
    let width: u32 = if a.width >= b.width {
        a.width
    } else {
        b.width
    };
    let height: u32 = if a.height >= b.height {
        a.height
    } else {
        b.height
    };
    let first: Raster = resize_exact(a, width, height, Filter::Triangle)?;
    let second: Raster = resize_exact(b, width, height, Filter::Triangle)?;
    Ok((first, second))
}

/// The outcome of a sharp comparison without images.
#[derive(Debug, Clone, PartialEq, Eq)]
pub struct DiffCheckSimpleResult {
    pub has_diff: bool,
    pub diff_count: usize,
    pub markers: Vec<DiffMarker>,
    pub image_width: u32,
    pub image_height: u32,
}

/// The outcome of a sharp comparison with the two pictures and the
/// difference image as PNG data URLs.
#[derive(Debug, Clone, PartialEq, Eq)]
pub struct DiffSimpleResult {
    pub src_a: String,
    pub src_b: String,
    pub diff_src: String,
    pub has_diff: bool,
    pub diff_count: usize,
    pub markers: Vec<DiffMarker>,
    pub image_width: u32,
    pub image_height: u32,
}

/// The differing pixels of two pictures of one size.
pub open spec fn sharp_points(a: RasterView, b: RasterView, threshold: u8) -> Seq<DiffPixel> {
    image_points(a.data, b.data, a.width as int, a.height as int, threshold as int)
}

/// Whether `r` is the sharp comparison of two pictures of one size.
pub open spec fn is_simple_check(
    r: DiffCheckSimpleResult,
    a: RasterView,
    b: RasterView,
    threshold: u8,
) -> bool {
    let points = sharp_points(a, b, threshold);
    &&& r.diff_count == points.len()
    &&& r.has_diff == (points.len() > 0)
    &&& r.image_width == a.width
    &&& r.image_height == a.height
    &&& clusters_to(
        points,
        SHARP_GRID as int,
        SHARP_MIN_CLUSTER as int,
        SHARP_MIN_RADIUS as int,
        r.markers@,
    )
}

/// The sharp comparison of two rasters of one size: the result without
/// images, and the difference image.
pub fn check_simple_aligned(a: &Raster, b: &Raster, threshold: u8) -> (r: (
    DiffCheckSimpleResult,
    Vec<u8>,
))
    requires
        a.wf(),
        b.wf(),
        a.width == b.width,
        a.height == b.height,
    ensures
        is_simple_check(r.0, a@, b@, threshold),
        r.1@ == sharp_buffer(a.data@, b.data@, a.width as int * a.height as int, threshold as int),
        a@ == b@ ==> !r.0.has_diff && r.0.diff_count == 0 && r.0.markers@.len() == 0,
{
    let (diff_buf, diff_count, points) = diff_simple_core(
        a.data.as_slice(),
        b.data.as_slice(),
        a.width,
        a.height,
        threshold,
    );
    let markers: Vec<DiffMarker> = cluster_markers(
        points.as_slice(),
        SHARP_GRID,
        SHARP_MIN_CLUSTER,
        SHARP_MIN_RADIUS,
    );
    proof {
        if a@ == b@ {
            lemma_self_diff(a.data@, a.width as int, a.height as int, threshold as int);
            lemma_no_points_no_markers(
                points@,
                SHARP_GRID as int,
                SHARP_MIN_CLUSTER as int,
                SHARP_MIN_RADIUS as int,
                markers@,
            );
        }
    }
    (
        DiffCheckSimpleResult {
            has_diff: diff_count > 0,
            diff_count,
            markers,
            image_width: a.width,
            image_height: a.height,
        },
        diff_buf,
    )
}

/// The two pictures of a sharp comparison, opened and brought to one size.
pub open spec fn simple_inputs(a: SourceFile, b: SourceFile) -> Result<
    (RasterView, RasterView),
    EngineError,
> {
    match opened(a) {
        Err(e) => Err(e),
        Ok(first) => match opened(b) {
            Err(e) => Err(e),
            Ok(second) => normalized_pair(first, second),
        },
    }
}

/// Opens the two files of a sharp comparison and brings them to one size.
pub fn open_pair(a: SourceFile, b: SourceFile) -> (r: Result<(Raster, Raster), EngineError>)
    ensures
        match r {
            Ok(pair) => {
                &&& pair.0.wf()
                &&& pair.1.wf()
                &&& pair.0.width == pair.1.width
                &&& pair.0.height == pair.1.height
                &&& simple_inputs(a, b) == Ok::<(RasterView, RasterView), EngineError>(
                    (pair.0@, pair.1@),
                )
            },
            Err(e) => simple_inputs(a, b) == Err::<(RasterView, RasterView), EngineError>(e),
        },
{
    let first: Raster = decode_image_file(a)?;
    let second: Raster = decode_image_file(b)?;
    normalize_pair(&first, &second)
}

/// Compares two files pixel by pixel and returns the markers without any
/// image.
pub fn check_diff_simple(a: SourceFile, b: SourceFile, threshold: u8) -> (r: Result<
    DiffCheckSimpleResult,
    EngineError,
>)
    ensures
        match r {
            Ok(found) => simple_inputs(a, b) matches Ok(pair) && is_simple_check(
                found,
                pair.0,
                pair.1,
                threshold,
            ),
            Err(e) => simple_inputs(a, b) == Err::<(RasterView, RasterView), EngineError>(e),
        },
{
    let pair: (Raster, Raster) = open_pair(a, b)?;
    let (found, _) = check_simple_aligned(&pair.0, &pair.1, threshold);
    Ok(found)
}

/// The three data URLs of a sharp comparison, or the first error of their
/// encoding: the first picture, the second, the difference image.
pub open spec fn simple_urls(a: RasterView, b: RasterView, threshold: u8) -> Result<
    (Seq<char>, Seq<char>, Seq<char>),
    EngineError,
> {
    match png_url(a.data, a.width as int, a.height as int) {
        Err(e) => Err(e),
        Ok(src_a) => match png_url(b.data, b.width as int, b.height as int) {
            Err(e) => Err(e),
            Ok(src_b) => match rgba_url(
                sharp_buffer(a.data, b.data, a.width as int * a.height as int, threshold as int),
                a.width as int,
                a.height as int,
            ) {
                Err(e) => Err(e),
                Ok(diff_src) => Ok((src_a, src_b, diff_src)),
            },
        },
    }
}

/// The result of a sharp comparison without its images.
pub open spec fn simple_summary(r: DiffSimpleResult) -> DiffCheckSimpleResult {
    DiffCheckSimpleResult {
        has_diff: r.has_diff,
        diff_count: r.diff_count,
        markers: r.markers,
        image_width: r.image_width,
        image_height: r.image_height,
    }
}

/// The sharp comparison of two rasters of one size, with the two pictures
/// and the difference image as PNG data URLs.
pub fn compute_simple_aligned(a: &Raster, b: &Raster, threshold: u8) -> (r: Result<
    DiffSimpleResult,
    EngineError,
>)
    requires
        a.wf(),
        b.wf(),
        a.width == b.width,
        a.height == b.height,
    ensures
        match r {
            Ok(found) => {
                &&& is_simple_check(simple_summary(found), a@, b@, threshold)
                &&& simple_urls(a@, b@, threshold) == Ok::<
                    (Seq<char>, Seq<char>, Seq<char>),
                    EngineError,
                >((found.src_a@, found.src_b@, found.diff_src@))
            },
            Err(e) => simple_urls(a@, b@, threshold) == Err::<
                (Seq<char>, Seq<char>, Seq<char>),
                EngineError,
            >(e),
        },
{
    let (found, diff_buf) = check_simple_aligned(a, b, threshold);
    let src_a: String = encode_to_data_url(a)?;
    let src_b: String = encode_to_data_url(b)?;
    let diff_src: String = encode_rgba_to_data_url(diff_buf.as_slice(), a.width, a.height)?;
    Ok(
        DiffSimpleResult {
            src_a,
            src_b,
            diff_src,
            has_diff: found.has_diff,
            diff_count: found.diff_count,
            markers: found.markers,
            image_width: found.image_width,
            image_height: found.image_height,
        },
    )
}

/// Compares two files pixel by pixel and returns the markers with the two
/// pictures and the difference image.
pub fn compute_diff_simple(a: SourceFile, b: SourceFile, threshold: u8) -> (r: Result<
    DiffSimpleResult,
    EngineError,
>)
    ensures
        match r {
            Ok(found) => {
                &&& simple_inputs(a, b) matches Ok(pair) && is_simple_check(
                    simple_summary(found),
                    pair.0,
                    pair.1,
                    threshold,
                ) && simple_urls(pair.0, pair.1, threshold) == Ok::<
                    (Seq<char>, Seq<char>, Seq<char>),
                    EngineError,
                >((found.src_a@, found.src_b@, found.diff_src@))
            },
            Err(e) => match simple_inputs(a, b) {
                Err(first) => e == first,
                Ok(pair) => simple_urls(pair.0, pair.1, threshold) == Err::<
                    (Seq<char>, Seq<char>, Seq<char>),
                    EngineError,
                >(e),
            },
        },
{
    let pair: (Raster, Raster) = open_pair(a, b)?;
    compute_simple_aligned(&pair.0, &pair.1, threshold)
}

/// The probability, in tenths of a percent, that two pictures differ, from
/// the number of high-density pixels among all pixels: 0 where there is
/// none, else `70 + min(30, high / pixels * 50000)` rounded to one decimal,
/// halves away from zero.
pub open spec fn probability_tenths(high: int, pixels: int) -> int {
    if high <= 0 {
        0
    } else if high * 500_000 >= 300 * pixels {
        1000
    } else {
        700 + (high * 1_000_000 + pixels) / (2 * pixels)
    }
}

/// Probability domain: the probability is 0 or lies between 70.0 and
/// 100.0, and it is 0 exactly where no pixel is of high density.
pub proof fn lemma_probability_domain(high: int, pixels: int)
    requires
        0 <= high,
        0 <= pixels,
    ensures
        probability_tenths(high, pixels) == 0 || 700 <= probability_tenths(high, pixels) <= 1000,
        probability_tenths(high, pixels) == 0 <==> high == 0,
{
    if high > 0 && high * 500_000 < 300 * pixels {
        let sum = high * 1_000_000 + pixels;
        vstd::arithmetic::div_mod::lemma_fundamental_div_mod(sum, 2 * pixels);
        vstd::arithmetic::div_mod::lemma_div_pos_is_pos(sum, 2 * pixels);
        let q = sum / (2 * pixels);
        assert(q <= 300) by (nonlinear_arith)
            requires
                sum == (2 * pixels) * q + sum % (2 * pixels),
                0 <= sum % (2 * pixels),
                sum < 601 * pixels,
                0 < pixels,
        ;
    }
}

/// The probability, in tenths of a percent, that two pictures of `width`
/// by `height` pixels differ, from the number of their high-density pixels.
pub fn diff_probability(high: usize, width: u32, height: u32) -> (tenths: u32)
    ensures
        tenths == probability_tenths(high as int, width as int * height as int),
        tenths == 0 || 700 <= tenths <= 1000,
        tenths == 0 <==> high == 0,
{
    let pixels: u64 = pixel_count(width, height);
    proof {
        lemma_probability_domain(high as int, pixels as int);
        assert(0 <= width as int * height as int);
    }
    if high == 0 {
        return 0;
    }
    let scaled: u128 = high as u128 * 500_000;
    if scaled >= 300 * (pixels as u128) {
        return 1000;
    }
    let rounded: u128 = (2 * scaled + pixels as u128) / (2 * (pixels as u128));
    (700 + rounded) as u32
}

/// The outcome of a heatmap comparison without images.  The probability
/// is kept in tenths of a percent: 735 stands for 73.5.
#[derive(Debug, Clone, PartialEq, Eq)]
pub struct DiffCheckHeatmapResult {
    pub has_diff: bool,
    pub diff_probability_tenths: u32,
    pub high_density_count: usize,
    pub markers: Vec<DiffMarker>,
    pub image_width: u32,
    pub image_height: u32,
}

/// The outcome of a heatmap comparison with the layered picture, the
/// flattened raster, the processed crop and the heatmap as PNG data URLs.
#[derive(Debug, Clone, PartialEq, Eq)]
pub struct DiffHeatmapResult {
    pub src_a: String,
    pub src_b: String,
    pub processed_a: String,
    pub diff_src: String,
    pub has_diff: bool,
    pub diff_probability_tenths: u32,
    pub high_density_count: usize,
    pub markers: Vec<DiffMarker>,
    pub image_width: u32,
    pub image_height: u32,
}

/// The three pictures of a heatmap comparison.
pub struct HeatInputs {
    /// The layered picture as opened.
    pub full: RasterView,
    /// The flattened raster, whose geometry is authoritative.
    pub target: RasterView,
    /// The crop of the layered picture, brought to the size of the
    /// flattened raster by the nearest neighbour.
    pub processed: RasterView,
}

/// The pictures of a heatmap comparison: both files opened, the layered
/// picture cropped and its crop resized.
pub open spec fn heat_inputs(lpf: SourceFile, flat: SourceFile, bounds: CropBounds) -> Result<
    HeatInputs,
    EngineError,
> {
    match opened_as_lpf(lpf) {
        Err(e) => Err(e),
        Ok(full) => match decoded_file(flat.bytes@, flat.path@) {
            Err(e) => Err(e),
            Ok(target) => if !bounds.fits(full.width as u32, full.height as u32) {
                Err(EngineError::InvalidCrop)
            } else {
                match resized(
                    crop_view(full, bounds),
                    target.width as u32,
                    target.height as u32,
                    Filter::Nearest,
                ) {
                    Err(e) => Err(e),
                    Ok(processed) => Ok(HeatInputs { full, target, processed }),
                }
            },
        },
    }
}

/// The mask of the pixels in which the processed crop and the flattened
/// raster differ.
pub open spec fn heat_mask(processed: RasterView, target: RasterView, threshold: u8) -> Seq<u8> {
    hit_mask(
        processed.data,
        target.data,
        target.width as int * target.height as int,
        threshold as int,
    )
}

/// The high-density pixels of a heatmap comparison.
pub open spec fn heat_points(processed: RasterView, target: RasterView, threshold: u8) -> Seq<
    DiffPixel,
> {
    hot_points(
        heat_mask(processed, target, threshold),
        target.width as int,
        target.height as int,
        target.height as int,
    )
}

/// The heatmap of a heatmap comparison.
pub open spec fn heat_image(processed: RasterView, target: RasterView, threshold: u8) -> Seq<u8> {
    heat_rows(
        heat_mask(processed, target, threshold),
        target.width as int,
        target.height as int,
        target.height as int,
    )
}

/// Whether `r` is the heatmap comparison of a processed crop with the
/// flattened raster.
pub open spec fn is_heat_check(
    r: DiffCheckHeatmapResult,
    processed: RasterView,
    target: RasterView,
    threshold: u8,
) -> bool {
    let points = heat_points(processed, target, threshold);
    &&& r.high_density_count == points.len()
    &&& r.has_diff == (points.len() > 0)
    &&& r.diff_probability_tenths == probability_tenths(
        points.len() as int,
        target.width as int * target.height as int,
    )
    &&& r.image_width == target.width
    &&& r.image_height == target.height
    &&& clusters_to(
        points,
        HEAT_GRID as int,
        HEAT_MIN_CLUSTER as int,
        HEAT_MIN_RADIUS as int,
        r.markers@,
    )
}

/// The heatmap comparison of a processed crop with a flattened raster of
/// the same size: the result without images, and the heatmap.
pub fn check_heatmap_aligned(processed: &Raster, target: &Raster, threshold: u8) -> (r: (
    DiffCheckHeatmapResult,
    Vec<u8>,
))
    requires
        processed.wf(),
        target.wf(),
        processed.width == target.width,
        processed.height == target.height,
    ensures
        is_heat_check(r.0, processed@, target@, threshold),
        r.1@ == heat_image(processed@, target@, threshold),
        r.0.diff_probability_tenths == 0 || 700 <= r.0.diff_probability_tenths <= 1000,
        r.0.diff_probability_tenths == 0 <==> r.0.high_density_count == 0,
{
    let (heatmap, high, points) = diff_heatmap_core(
        processed.data.as_slice(),
        target.data.as_slice(),
        target.width,
        target.height,
        threshold,
    );
    let markers: Vec<DiffMarker> = cluster_markers(
        points.as_slice(),
        HEAT_GRID,
        HEAT_MIN_CLUSTER,
        HEAT_MIN_RADIUS,
    );
    let tenths: u32 = diff_probability(high, target.width, target.height);
    (
        DiffCheckHeatmapResult {
            has_diff: high > 0,
            diff_probability_tenths: tenths,
            high_density_count: high,
            markers,
            image_width: target.width,
            image_height: target.height,
        },
        heatmap,
    )
}

/// The three rasters of a heatmap comparison.
pub struct HeatRasters {
    pub full: Raster,
    pub target: Raster,
    pub processed: Raster,
}

/// Opens the two files of a heatmap comparison, crops the layered picture
/// and brings the crop to the size of the flattened raster.
pub fn open_heat_inputs(lpf: SourceFile, flat: SourceFile, bounds: CropBounds) -> (r: Result<
    HeatRasters,
    EngineError,
>)
    ensures
        match r {
            Ok(found) => {
                &&& found.full.wf()
                &&& found.target.wf()
                &&& found.processed.wf()
                &&& found.processed.width == found.target.width
                &&& found.processed.height == found.target.height
                &&& heat_inputs(lpf, flat, bounds) == Ok::<HeatInputs, EngineError>(
                    HeatInputs {
                        full: found.full@,
                        target: found.target@,
                        processed: found.processed@,
                    },
                )
            },
            Err(e) => heat_inputs(lpf, flat, bounds) == Err::<HeatInputs, EngineError>(e),
        },
{
    let full: Raster = decode_lpf_file(lpf)?;
    let target: Raster = decode_raster(flat.bytes.as_slice(), flat.path.as_str())?;
    let cropped: Raster = match full.crop(&bounds) {
        Some(cropped) => cropped,
        None => {
            return Err(EngineError::InvalidCrop);
        },
    };
    let processed: Raster = resize_exact(&cropped, target.width, target.height, Filter::Nearest)?;
    Ok(HeatRasters { full, target, processed })
}

/// Compares a layered picture file with its flattened raster by density
/// and returns the markers without any image.
pub fn check_diff_heatmap(
    lpf: SourceFile,
    flat: SourceFile,
    bounds: CropBounds,
    threshold: u8,
) -> (r: Result<DiffCheckHeatmapResult, EngineError>)
    ensures
        match r {
            Ok(found) => heat_inputs(lpf, flat, bounds) matches Ok(inputs) && is_heat_check(
                found,
                inputs.processed,
                inputs.target,
                threshold,
            ),
            Err(e) => heat_inputs(lpf, flat, bounds) == Err::<HeatInputs, EngineError>(e),
        },
{
    let rasters: HeatRasters = open_heat_inputs(lpf, flat, bounds)?;
    let (found, _) = check_heatmap_aligned(&rasters.processed, &rasters.target, threshold);
    Ok(found)
}

/// The four data URLs of a heatmap comparison.
pub struct HeatUrls {
    pub src_a: Seq<char>,
    pub src_b: Seq<char>,
    pub processed_a: Seq<char>,
    pub diff_src: Seq<char>,
}

/// The four data URLs of a heatmap comparison, or the first error of their
/// encoding: the layered picture, the flattened raster, the processed
/// crop, the heatmap.
pub open spec fn heat_urls(inputs: HeatInputs, threshold: u8) -> Result<HeatUrls, EngineError> {
    match png_url(inputs.full.data, inputs.full.width as int, inputs.full.height as int) {
        Err(e) => Err(e),
        Ok(src_a) => match png_url(
            inputs.target.data,
            inputs.target.width as int,
            inputs.target.height as int,
        ) {
            Err(e) => Err(e),
            Ok(src_b) => match png_url(
                inputs.processed.data,
                inputs.processed.width as int,
                inputs.processed.height as int,
            ) {
                Err(e) => Err(e),
                Ok(processed_a) => match rgba_url(
                    heat_image(inputs.processed, inputs.target, threshold),
                    inputs.target.width as int,
                    inputs.target.height as int,
                ) {
                    Err(e) => Err(e),
                    Ok(diff_src) => Ok(HeatUrls { src_a, src_b, processed_a, diff_src }),
                },
            },
        },
    }
}

/// The result of a heatmap comparison without its images.
pub open spec fn heat_summary(r: DiffHeatmapResult) -> DiffCheckHeatmapResult {
    DiffCheckHeatmapResult {
        has_diff: r.has_diff,
        diff_probability_tenths: r.diff_probability_tenths,
        high_density_count: r.high_density_count,
        markers: r.markers,
        image_width: r.image_width,
        image_height: r.image_height,
    }
}

/// The data URLs that a result carries.
pub open spec fn urls_of(r: DiffHeatmapResult) -> HeatUrls {
    HeatUrls {
        src_a: r.src_a@,
        src_b: r.src_b@,
        processed_a: r.processed_a@,
        diff_src: r.diff_src@,
    }
}

/// Compares a layered picture file with its flattened raster by density
/// and returns the markers with the four images.
pub fn compute_diff_heatmap(
    lpf: SourceFile,
    flat: SourceFile,
    bounds: CropBounds,
    threshold: u8,
) -> (r: Result<DiffHeatmapResult, EngineError>)
    ensures
        match r {
            Ok(found) => {
                &&& heat_inputs(lpf, flat, bounds) matches Ok(inputs) && is_heat_check(
                    heat_summary(found),
                    inputs.processed,
                    inputs.target,
                    threshold,
                ) && heat_urls(inputs, threshold) == Ok::<HeatUrls, EngineError>(urls_of(found))
            },
            Err(e) => match heat_inputs(lpf, flat, bounds) {
                Err(first) => e == first,
                Ok(inputs) => heat_urls(inputs, threshold) == Err::<HeatUrls, EngineError>(e),
            },
        },
{
    let rasters: HeatRasters = open_heat_inputs(lpf, flat, bounds)?;
    let (found, heatmap) = check_heatmap_aligned(&rasters.processed, &rasters.target, threshold);
    let src_a: String = encode_to_data_url(&rasters.full)?;
    let src_b: String = encode_to_data_url(&rasters.target)?;
    let processed_a: String = encode_to_data_url(&rasters.processed)?;
    let diff_src: String = encode_rgba_to_data_url(
        heatmap.as_slice(),
        rasters.target.width,
        rasters.target.height,
    )?;
    Ok(
        DiffHeatmapResult {
            src_a,
            src_b,
            processed_a,
            diff_src,
            has_diff: found.has_diff,
            diff_probability_tenths: found.diff_probability_tenths,
            high_density_count: found.high_density_count,
            markers: found.markers,
            image_width: found.image_width,
            image_height: found.image_height,
        },
    )
}

/// A layered picture as a data URL, with its dimensions.
#[derive(Debug, Clone, PartialEq, Eq)]
pub struct LpfImageResult {
    pub data_url: String,
    pub width: u32,
    pub height: u32,
}

/// What a result of parsing stands for: the data URL and the dimensions.
pub struct ParsedView {
    pub data_url: Seq<char>,
    pub width: nat,
    pub height: nat,
}

/// The view of a result of parsing.
pub open spec fn parsed_view(r: LpfImageResult) -> ParsedView {
    ParsedView { data_url: r.data_url@, width: r.width as nat, height: r.height as nat }
}

/// A picture with its PNG data URL, or the error of the encoding.
pub open spec fn as_png(img: RasterView) -> Result<ParsedView, EngineError> {
    match png_url(img.data, img.width as int, img.height as int) {
        Ok(url) => Ok(ParsedView { data_url: url, width: img.width, height: img.height }),
        Err(e) => Err(e),
    }
}

/// What parsing a layered picture file yields: the picture of the rich
/// decoder where it is usable and can be encoded, else the picture of the
/// fallback decoder.
pub open spec fn parsed_lpf(bytes: Seq<u8>, rich: Option<RichPicture>) -> Result<
    ParsedView,
    EngineError,
> {
    if rich_usable(rich) && as_png(rich_view(rich)) is Ok {
        as_png(rich_view(rich))
    } else {
        match lpf_decode(bytes) {
            Err(e) => Err(EngineError::Format(e)),
            Ok(img) => as_png(img),
        }
    }
}

/// Whether `r` is the parsed picture or the error that `expected`
/// describes.
pub open spec fn is_parsed(r: Result<LpfImageResult, EngineError>, expected: Result<
    ParsedView,
    EngineError,
>) -> bool {
    match r {
        Ok(found) => expected == Ok::<ParsedView, EngineError>(parsed_view(found)),
        Err(e) => expected == Err::<ParsedView, EngineError>(e),
    }
}

/// A raster with its PNG data URL.
pub fn raster_as_png(img: &Raster) -> (r: Result<LpfImageResult, EngineError>)
    requires
        img.wf(),
    ensures
        is_parsed(r, as_png(img@)),
{
    let data_url: String = encode_to_data_url(img)?;
    Ok(LpfImageResult { data_url, width: img.width, height: img.height })
}

/// Parses a layered picture file into a PNG data URL.  `rich` is the
/// outcome of the rich decoder on the same bytes.
pub fn parse_lpf(bytes: &[u8], rich: Option<RichPicture>) -> (r: Result<
    LpfImageResult,
    EngineError,
>)
    ensures
        is_parsed(r, parsed_lpf(bytes@, rich)),
{
    if let Some(found) = rich {
        if let Some(img) = Raster::from_raw(found.width, found.height, found.rgba) {
            if let Ok(parsed) = raster_as_png(&img) {
                return Ok(parsed);
            }
        }
    }
    match decode_lpf_fallback(bytes) {
        Ok(img) => raster_as_png(&img),
        Err(e) => Err(EngineError::Format(e)),
    }
}

/// The height of a preview `max_width` pixels wide of a picture `width` by
/// `height` pixels: `height * max_width / width`, rounded down.
pub open spec fn preview_height(width: int, height: int, max_width: int) -> int {
    (height * max_width) / width
}

/// The preview of a picture: scaled down to `max_width` with the triangle
/// filter where it is wider, else as it is.
pub open spec fn preview_of(img: RasterView, max_width: u32) -> Result<RasterView, EngineError> {
    if img.width > max_width {
        resized(
            img,
            max_width,
            preview_height(img.width as int, img.height as int, max_width as int) as u32,
            Filter::Triangle,
        )
    } else {
        Ok(img)
    }
}

/// A picture with its JPEG data URL, or the error of the encoding.
pub open spec fn as_jpeg(img: RasterView) -> Result<ParsedView, EngineError> {
    match preview_url(img.data, img.width as int, img.height as int) {
        Ok(url) => Ok(ParsedView { data_url: url, width: img.width, height: img.height }),
        Err(e) => Err(e),
    }
}

/// What previewing a layered picture file yields.
pub open spec fn previewed_lpf(
    bytes: Seq<u8>,
    rich: Option<RichPicture>,
    max_width: u32,
) -> Result<ParsedView, EngineError> {
    match lpf_opened(bytes, rich) {
        Err(e) => Err(EngineError::Format(e)),
        Ok(img) => match preview_of(img, max_width) {
            Err(e) => Err(e),
            Ok(small) => as_jpeg(small),
        },
    }
}

/// Scales a raster down to a preview at most `max_width` pixels wide.
pub fn preview_raster(img: Raster, max_width: u32) -> (r: Result<Raster, EngineError>)
    requires
        img.wf(),
    ensures
        is_raster(r, preview_of(img@, max_width)),
{
    if img.width > max_width {
        proof {
            assert(img.height as int * max_width as int <= 0xffff_ffff * 0xffff_ffff)
                by (nonlinear_arith)
                requires
                    0 <= img.height <= 0xffff_ffff,
                    0 <= max_width <= 0xffff_ffff,
            ;
            assert((img.height as int * max_width as int) / (img.width as int) <= img.height) by {
                vstd::arithmetic::div_mod::lemma_fundamental_div_mod(
                    img.height as int * max_width as int,
                    img.width as int,
                );
                let q = (img.height as int * max_width as int) / (img.width as int);
                vstd::arithmetic::div_mod::lemma_div_pos_is_pos(
                    img.height as int * max_width as int,
                    img.width as int,
                );
                assert(q <= img.height) by (nonlinear_arith)
                    requires
                        img.height * max_width == img.width * q + (img.height * max_width)
                            % (img.width as int),
                        0 <= (img.height * max_width) % (img.width as int),
                        0 <= max_width < img.width,
                        0 <= img.height,
                        0 <= q,
                ;
            }
        }
        let new_height: u64 = (img.height as u64 * max_width as u64) / (img.width as u64);
        resize_exact(&img, max_width, new_height as u32, Filter::Triangle)
    } else {
        Ok(img)
    }
}

/// Parses a layered picture file into a light preview: at most `max_width`
/// pixels wide, as a JPEG data URL.
pub fn parse_lpf_preview(bytes: &[u8], rich: Option<RichPicture>, max_width: u32) -> (r: Result<
    LpfImageResult,
    EngineError,
>)
    ensures
        is_parsed(r, previewed_lpf(bytes@, rich, max_width)),
{
    let img: Raster = match decode_lpf_to_image(bytes, rich) {
        Ok(img) => img,
        Err(e) => {
            return Err(EngineError::Format(e));
        },
    };
    let small: Raster = preview_raster(img, max_width)?;
    let data_url: String = encode_preview_data_url(&small)?;
    Ok(LpfImageResult { data_url, width: small.width, height: small.height })
}

/// Self-diff: a file compared with itself has no differing pixel and no
/// marker, whatever the threshold.
pub proof fn lemma_self_diff_files(file: SourceFile, threshold: u8, found: DiffCheckSimpleResult)
    requires
        simple_inputs(file, file) matches Ok(pair) && is_simple_check(
            found,
            pair.0,
            pair.1,
            threshold,
        ),
    ensures
        found.diff_count == 0,
        !found.has_diff,
        found.markers@.len() == 0,
{
    let img = opened(file)->Ok_0;
    let pair = simple_inputs(file, file)->Ok_0;
    assert(pair.0 == pair.1);
    lemma_self_diff(pair.0.data, pair.0.width as int, pair.0.height as int, threshold as int);
    lemma_no_points_no_markers(
        sharp_points(pair.0, pair.1, threshold),
        SHARP_GRID as int,
        SHARP_MIN_CLUSTER as int,
        SHARP_MIN_RADIUS as int,
        found.markers@,
    );
}

/// Threshold monotonicity: of two comparisons of one pair of pictures the
/// one with the higher threshold counts no more differing pixels.
pub proof fn lemma_threshold_monotone_checks(
    a: RasterView,
    b: RasterView,
    low: u8,
    high: u8,
    at_low: DiffCheckSimpleResult,
    at_high: DiffCheckSimpleResult,
)
    requires
        low <= high,
        is_simple_check(at_low, a, b, low),
        is_simple_check(at_high, a, b, high),
    ensures
        at_high.diff_count <= at_low.diff_count,
{
    lemma_threshold_monotone(
        a.data,
        b.data,
        a.width as int,
        a.height as int,
        low as int,
        high as int,
    );
}

/// Commutativity of counts: comparing two pictures of one size in either
/// order counts the same differing pixels.
pub proof fn lemma_symmetric_checks(
    a: RasterView,
    b: RasterView,
    threshold: u8,
    forth: DiffCheckSimpleResult,
    back: DiffCheckSimpleResult,
)
    requires
        a.width == b.width,
        a.height == b.height,
        is_simple_check(forth, a, b, threshold),
        is_simple_check(back, b, a, threshold),
    ensures
        forth.diff_count == back.diff_count,
        forth.has_diff == back.has_diff,
{
    lemma_diff_symmetric(a.data, b.data, a.width as int, a.height as int, threshold as int);
}

/// Whether the pixels of a `width` by `height` image that differ are
/// exactly those of the rectangle of the columns from `x1` up to `x2` and
/// the rows from `y1` up to `y2`.
pub open spec fn differs_exactly_in(
    mask: Seq<u8>,
    width: int,
    height: int,
    x1: int,
    x2: int,
    y1: int,
    y2: int,
) -> bool {
    forall|x: int, y: int|
        0 <= x < width && 0 <= y < height ==> (mask[#[trigger] cell(width, y, x)] == 1) == (x1
            <= x < x2 && y1 <= y < y2)
}

/// Whether the pixels further than 15 from the edge of the rectangle are
/// enough for a cluster of the heatmap pipeline, and the rectangle lies in
/// grid cells of that pipeline that touch.
pub open spec fn makes_one_cluster(x1: int, x2: int, y1: int, y2: int) -> bool {
    &&& (x2 - x1 - 30) * (y2 - y1 - 30) >= HEAT_MIN_CLUSTER
    &&& (x2 - 1) / (HEAT_GRID as int) - x1 / (HEAT_GRID as int) <= 1
    &&& (y2 - 1) / (HEAT_GRID as int) - y1 / (HEAT_GRID as int) <= 1
}

/// The high-density pixels of a picture that differs exactly in a
/// rectangle lie in that rectangle.
proof fn lemma_hot_point_in_rectangle(
    mask: Seq<u8>,
    width: int,
    height: int,
    x1: int,
    x2: int,
    y1: int,
    y2: int,
    i: int,
)
    requires
        0 <= width <= 0x1_0000_0000,
        0 <= height <= 0x1_0000_0000,
        differs_exactly_in(mask, width, height, x1, x2, y1, y2),
        0 <= i < hot_points(mask, width, height, height).len(),
    ensures
        x1 <= hot_points(mask, width, height, height)[i].x < x2,
        y1 <= hot_points(mask, width, height, height)[i].y < y2,
{
    lemma_heatmap_gating(mask, width, height, height, i);
    let p = hot_points(mask, width, height, height)[i];
    assert(is_counted(mask, width, height, p.x as int, p.y as int));
    assert(mask[cell(width, p.y as int, p.x as int)] == 1);
}

/// A bright rectangle gives one hot cluster.  Where a processed crop and a
/// flattened raster differ exactly in a rectangle of at least 31 by 31
/// pixels, the comparison reports a difference, at least
/// `(across - 30) * (down - 30)` high-density pixels and a probability of
/// 70.0 or more.  Where, besides, `makes_one_cluster` holds of the
/// rectangle, there is exactly one marker, which counts every high-density
/// pixel.
pub proof fn lemma_bright_rectangle(
    processed: RasterView,
    target: RasterView,
    threshold: u8,
    found: DiffCheckHeatmapResult,
    x1: int,
    x2: int,
    y1: int,
    y2: int,
)
    requires
        is_heat_check(found, processed, target, threshold),
        target.width <= u32::MAX,
        target.height <= u32::MAX,
        0 <= x1 && x1 + 31 <= x2 <= target.width,
        0 <= y1 && y1 + 31 <= y2 <= target.height,
        differs_exactly_in(
            heat_mask(processed, target, threshold),
            target.width as int,
            target.height as int,
            x1,
            x2,
            y1,
            y2,
        ),
    ensures
        found.has_diff,
        found.high_density_count >= (x2 - x1 - 30) * (y2 - y1 - 30),
        found.high_density_count >= 1,
        700 <= found.diff_probability_tenths <= 1000,
        makes_one_cluster(x1, x2, y1, y2) ==> {
            &&& found.markers@.len() == 1
            &&& found.markers@[0].count == found.high_density_count
        },
{
    let width = target.width as int;
    let height = target.height as int;
    let mask = heat_mask(processed, target, threshold);
    let points = heat_points(processed, target, threshold);
    let g = HEAT_GRID as int;
    assert(is_mask(mask, width, height));
    assert(is_filled(mask, width, x1, x2, y1, y2)) by {
        assert forall|x: int, y: int| x1 <= x < x2 && y1 <= y < y2 implies mask[#[trigger] cell(
            width,
            y,
            x,
        )] == 1 by {}
    }
    lemma_filled_rectangle_is_found(mask, width, height, x1, x2, y1, y2);
    assert(0 <= width * height) by (nonlinear_arith)
        requires
            0 <= width,
            0 <= height,
    ;
    lemma_probability_domain(points.len() as int, width * height);
    if makes_one_cluster(x1, x2, y1, y2) {
        assert forall|i: int, j: int|
            0 <= i < points.len() && 0 <= j < points.len() implies #[trigger] near(
            points,
            g,
            i,
            j,
        ) by {
            lemma_hot_point_in_rectangle(mask, width, height, x1, x2, y1, y2, i);
            lemma_hot_point_in_rectangle(mask, width, height, x1, x2, y1, y2, j);
            lemma_between_cells(g, x1, x2, points[i].x as int);
            lemma_between_cells(g, x1, x2, points[j].x as int);
            lemma_between_cells(g, y1, y2, points[i].y as int);
            lemma_between_cells(g, y1, y2, points[j].y as int);
        }
        assert(all_near(points, g));
        lemma_touching_points_one_marker(
            points,
            g,
            HEAT_MIN_CLUSTER as int,
            HEAT_MIN_RADIUS as int,
            found.markers@,
        );
    }
}

/// A coordinate between two others lies in a grid line between theirs.
proof fn lemma_between_cells(g: int, low: int, high: int, at: int)
    requires
        g >= 1,
        0 <= low <= at < high,
    ensures
        low / g <= at / g <= (high - 1) / g,
{
    vstd::arithmetic::div_mod::lemma_div_is_ordered(low, at, g);
    vstd::arithmetic::div_mod::lemma_div_is_ordered(at, high - 1, g);
}

} // verus!
