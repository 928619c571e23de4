//! The boundary to the raster codecs: decoding of common raster formats,
//! resampling, PNG and JPEG encoding, and base64 data URLs.
//!
//! The codecs themselves are taken on trust.  Each is called through one
//! small function whose contract names the result; everything around the
//! calls is verified.

use base64::Engine;
use vstd::prelude::*;
use vstd::string::{StrSliceExecFns, StringExecFns};
use crate::error::EngineError;
use crate::raster::{pixel_count, rgba_len, Raster, RasterView};

verus! {

/// `image::ImageError`, the error of the raster codecs.  Nothing is known
/// of its inside; it is only told apart from success.
#[verifier::external_type_specification]
#[verifier::external_body]
pub struct ExImageError(image::ImageError);

/// `base64::DecodeError`, the error of the base64 decoder.  Nothing is known
/// of its inside; it is only told apart from success.
#[verifier::external_type_specification]
#[verifier::external_body]
pub struct ExBase64DecodeError(base64::DecodeError);

/// The sampling filter of a resize.
#[derive(Debug, Clone, Copy, PartialEq, Eq, Structural)]
pub enum Filter {
    /// Linear interpolation.
    Triangle,
    /// Nearest neighbour.
    Nearest,
}

/// The image format of a data URL.
#[derive(Debug, Clone, Copy, PartialEq, Eq, Structural)]
pub enum ImageKind {
    Png,
    Jpeg,
}

/// The JPEG quality of previews.
pub const PREVIEW_QUALITY: u8 = 85;

/// What the raster decoder (`image::load_from_memory_with_format`, with the
/// format that `image::ImageFormat::from_extension` finds) makes of the
/// file content `bytes` under the file extension `extension`: width, height
/// and RGBA bytes, or nothing where it does not know the extension or
/// rejects the content.
pub uninterp spec fn image_decoded(bytes: Seq<u8>, extension: Seq<char>) -> Option<
    (u32, u32, Seq<u8>),
>;

/// The RGBA bytes of a `width` by `height` picture resampled by
/// `image::imageops::resize` to `new_width` by `new_height`, with the
/// nearest-neighbour filter or else the triangle filter.
pub uninterp spec fn resampled(
    data: Seq<u8>,
    width: int,
    height: int,
    new_width: int,
    new_height: int,
    nearest: bool,
) -> Seq<u8>;

/// The PNG file that `image::write_buffer_with_format` writes of an RGBA
/// picture, or nothing where the encoder fails.
pub uninterp spec fn png_encoded(data: Seq<u8>, width: int, height: int) -> Option<Seq<u8>>;

/// The JPEG file that `image::codecs::jpeg::JpegEncoder` writes of an RGB
/// picture at the given quality, or nothing where the encoder fails.
pub uninterp spec fn jpeg_encoded(rgb: Seq<u8>, width: int, height: int, quality: int) -> Option<
    Seq<u8>,
>;

/// The standard padded base64 text of some bytes, as `base64::Engine::encode`
/// gives it.
pub uninterp spec fn base64_text(bytes: Seq<u8>) -> Seq<char>;

/// The bytes that a standard padded base64 text stands for, as
/// `base64::Engine::decode` gives them, or nothing where it rejects the
/// text.
pub uninterp spec fn base64_decoded(text: Seq<char>) -> Option<Seq<u8>>;

/// Calls `image::ImageFormat::from_extension` and
/// `image::load_from_memory_with_format`: the format is that of the
/// extension, and the content is decoded and converted to 8-bit RGBA.  The
/// contract only names the outcome; that there is none for an unknown
/// extension or a malformed file is not claimed.
#[verifier::external_body]
fn decode_with_extension(bytes: &[u8], extension: &str) -> (r: Option<(u32, u32, Vec<u8>)>)
    ensures
        match r {
            Some(found) => image_decoded(bytes@, extension@) == Some(
                (found.0, found.1, found.2@),
            ),
            None => image_decoded(bytes@, extension@) is None,
        },
{
    let format = image::ImageFormat::from_extension(extension)?;
    let rgba = image::load_from_memory_with_format(bytes, format).ok()?.into_rgba8();
    Some((rgba.width(), rgba.height(), rgba.into_raw()))
}

/// The greatest dimension on either side of a resize with the triangle
/// filter.
///
/// The resampler places its samples in `f32`.  Up to this limit a position
/// `(x + 0.5) * width / new_width` is off by less than 0.13 and the centre
/// half a pixel to its left by less than 0.19, so the pixel nearest to the
/// centre is in the window and weighs 0.3 or more: the weights never sum to
/// zero.  Far beyond the limit, from 2^23 on, the half pixel is lost, a
/// window can weigh nothing, and the resampler divides by zero.
pub const SAMPLING_LIMIT: u32 = 0x10_0000;

/// Whether a resize of a picture of `width` by `height` pixels to
/// `new_width` by `new_height` pixels is within what the resampler takes:
/// - the result, and the intermediate picture of `width` by `new_height`
///   pixels of four `f32`, can be allocated;
/// - the length of one row of either, which the resampler works out before
///   it looks at the number of rows, fits a `usize`;
/// - with the triangle filter, no dimension exceeds `SAMPLING_LIMIT`.
pub open spec fn fits_resampling(
    width: int,
    height: int,
    new_width: int,
    new_height: int,
    nearest: bool,
) -> bool {
    &&& 16 * (width * new_height) <= isize::MAX
    &&& 4 * (new_width * new_height) <= isize::MAX
    &&& 4 * width <= usize::MAX
    &&& 4 * new_width <= usize::MAX
    &&& (nearest || (width <= SAMPLING_LIMIT && height <= SAMPLING_LIMIT && new_width
        <= SAMPLING_LIMIT && new_height <= SAMPLING_LIMIT))
}

/// Calls `image::imageops::resize` on an RGBA buffer.  The contract names
/// the bytes that come back and claims their number, which is that of an
/// RGBA picture of the new dimensions.  `fits_resampling` keeps out what the
/// resampler does not take: rows whose length overflows, and, with the
/// triangle filter, pictures so large that its weights can sum to zero.
#[verifier::external_body]
fn resample(
    data: &[u8],
    width: u32,
    height: u32,
    new_width: u32,
    new_height: u32,
    filter: Filter,
) -> (out: Vec<u8>)
    requires
        data.len() == rgba_len(width as int, height as int),
        fits_resampling(
            width as int,
            height as int,
            new_width as int,
            new_height as int,
            filter == Filter::Nearest,
        ),
    ensures
        out@ == resampled(
            data@,
            width as int,
            height as int,
            new_width as int,
            new_height as int,
            filter == Filter::Nearest,
        ),
        out@.len() == rgba_len(new_width as int, new_height as int),
{
    let kind = match filter {
        Filter::Triangle => image::imageops::FilterType::Triangle,
        Filter::Nearest => image::imageops::FilterType::Nearest,
    };
    let src = image::ImageBuffer::<image::Rgba<u8>, &[u8]>::from_raw(width, height, data).unwrap();
    image::imageops::resize(&src, new_width, new_height, kind).into_raw()
}

/// Calls `image::write_buffer_with_format` for PNG on an RGBA buffer.  The
/// contract only names the outcome.
#[verifier::external_body]
fn png_bytes(data: &[u8], width: u32, height: u32) -> (r: Result<Vec<u8>, image::ImageError>)
    requires
        data.len() == rgba_len(width as int, height as int),
    ensures
        match r {
            Ok(file) => png_encoded(data@, width as int, height as int) == Some(file@),
            Err(_) => png_encoded(data@, width as int, height as int) is None,
        },
{
    let mut out = std::io::Cursor::new(Vec::new());
    let color = image::ExtendedColorType::Rgba8;
    image::write_buffer_with_format(&mut out, data, width, height, color, image::ImageFormat::Png)?;
    Ok(out.into_inner())
}

/// Calls `image::codecs::jpeg::JpegEncoder::encode` on an RGB buffer, with
/// an encoder of the given quality.  The contract only names the outcome.
/// The encoder works out the length of one row before it looks at the
/// number of rows, so a row must fit a `usize`.
#[verifier::external_body]
fn jpeg_bytes(rgb: &[u8], width: u32, height: u32, quality: u8) -> (r: Result<
    Vec<u8>,
    image::ImageError,
>)
    requires
        rgb.len() == 3 * (width as int * height as int),
        3 * width <= usize::MAX,
    ensures
        match r {
            Ok(file) => jpeg_encoded(rgb@, width as int, height as int, quality as int) == Some(
                file@,
            ),
            Err(_) => jpeg_encoded(rgb@, width as int, height as int, quality as int) is None,
        },
{
    let mut out = Vec::new();
    let mut encoder = image::codecs::jpeg::JpegEncoder::new_with_quality(&mut out, quality);
    encoder.encode(rgb, width, height, image::ExtendedColorType::Rgb8)?;
    Ok(out)
}

/// Calls `base64::Engine::encode` of the standard engine.  The input is
/// kept short enough for the length of the text to fit a `usize`.
#[verifier::external_body]
fn base64_encode(bytes: &[u8]) -> (text: String)
    requires
        bytes.len() <= usize::MAX / 2,
    ensures
        text@ == base64_text(bytes@),
{
    base64::engine::general_purpose::STANDARD.encode(bytes)
}

/// Calls `base64::Engine::decode` of the standard engine.  The contract
/// only names the outcome.
#[verifier::external_body]
fn base64_decode(text: &str) -> (r: Result<Vec<u8>, base64::DecodeError>)
    ensures
        match r {
            Ok(bytes) => base64_decoded(text@) == Some(bytes@),
            Err(_) => base64_decoded(text@) is None,
        },
{
    base64::engine::general_purpose::STANDARD.decode(text)
}

/// The picture `width` by `height` pixels over the bytes `data`.
pub open spec fn picture(width: u32, height: u32, data: Seq<u8>) -> RasterView {
    RasterView { width: width as nat, height: height as nat, data }
}

/// The raster that the decoder's outcome stands for: its picture where the
/// bytes go with the dimensions, `BufferConstruction` where they do not,
/// `Decode` where the decoder failed.
pub open spec fn decoded_raster(outcome: Option<(u32, u32, Seq<u8>)>) -> Result<
    RasterView,
    EngineError,
> {
    match outcome {
        None => Err(EngineError::Decode),
        Some(found) => if found.2.len() >= rgba_len(found.0 as int, found.1 as int) {
            Ok(
                picture(
                    found.0,
                    found.1,
                    found.2.subrange(0, rgba_len(found.0 as int, found.1 as int)),
                ),
            )
        } else {
            Err(EngineError::BufferConstruction)
        },
    }
}

/// Whether `r` is the raster or the error that `expected` describes.
pub open spec fn is_raster(r: Result<Raster, EngineError>, expected: Result<
    RasterView,
    EngineError,
>) -> bool {
    match r {
        Ok(img) => img.wf() && expected == Ok::<RasterView, EngineError>(img@),
        Err(e) => expected == Err::<RasterView, EngineError>(e),
    }
}

/// Builds the raster of a decoded picture, or says why there is none.
pub fn raster_from_decoded(outcome: Option<(u32, u32, Vec<u8>)>) -> (r: Result<Raster, EngineError>)
    ensures
        is_raster(
            r,
            decoded_raster(
                match outcome {
                    Some(found) => Some((found.0, found.1, found.2@)),
                    None => None,
                },
            ),
        ),
{
    match outcome {
        None => Err(EngineError::Decode),
        Some(found) => match Raster::from_raw(found.0, found.1, found.2) {
            Some(img) => Ok(img),
            None => Err(EngineError::BufferConstruction),
        },
    }
}

/// Whether the character parts the components of a path.
pub open spec fn is_separator(c: char) -> bool {
    c == '/' || c == '\\'
}

/// Where the last dot of the last component of a path stands, looking back
/// from `end`; -1 where that component has no dot before `end`.
pub open spec fn last_dot(path: Seq<char>, end: int) -> int
    decreases end,
{
    if end <= 0 || is_separator(path[end - 1]) {
        -1
    } else if path[end - 1] == '.' {
        end - 1
    } else {
        last_dot(path, end - 1)
    }
}

/// The extension of a file name: what follows the last dot of the last
/// component of the path.  A component without a dot, or with its only dot
/// in front, has none.
pub open spec fn extension_of(path: Seq<char>) -> Option<Seq<char>> {
    let dot = last_dot(path, path.len() as int);
    if dot <= 0 || is_separator(path[dot - 1]) {
        None
    } else {
        Some(path.subrange(dot + 1, path.len() as int))
    }
}

/// The extension of a file name.
pub fn file_extension(path: &str) -> (r: Option<&str>)
    ensures
        match r {
            Some(extension) => extension_of(path@) == Some(extension@),
            None => extension_of(path@) is None,
        },
{
    let total: usize = path.unicode_len();
    let mut end: usize = total;
    while end > 0
        invariant
            total == path@.len(),
            end <= total,
            last_dot(path@, total as int) == last_dot(path@, end as int),
        decreases end,
    {
        let c: char = path.get_char(end - 1);
        if c == '/' || c == '\\' {
            return None;
        }
        if c == '.' {
            if end - 1 == 0 {
                return None;
            }
            let before: char = path.get_char(end - 2);
            if before == '/' || before == '\\' {
                return None;
            }
            return Some(path.substring_char(end, total));
        }
        end -= 1;
    }
    None
}

/// What decoding the content of a raster file named `path` yields: the
/// format is told by the extension of the name.
pub open spec fn decoded_file(bytes: Seq<u8>, path: Seq<char>) -> Result<RasterView, EngineError> {
    match extension_of(path) {
        Some(extension) => decoded_raster(image_decoded(bytes, extension)),
        None => Err(EngineError::Decode),
    }
}

/// Decodes the content `bytes` of a raster file named `path` (PNG, JPEG or
/// TIFF, by the extension of the name) into an 8-bit RGBA raster.
pub fn decode_raster(bytes: &[u8], path: &str) -> (r: Result<Raster, EngineError>)
    ensures
        is_raster(r, decoded_file(bytes@, path@)),
{
    match file_extension(path) {
        Some(extension) => raster_from_decoded(decode_with_extension(bytes, extension)),
        None => Err(EngineError::Decode),
    }
}

/// What resizing `img` to `width` by `height` gives: `img` itself where it
/// has those dimensions already, the resampled picture where the resize is
/// within what the resampler takes, else `BufferConstruction`.
pub open spec fn resized(img: RasterView, width: u32, height: u32, filter: Filter) -> Result<
    RasterView,
    EngineError,
> {
    if img.width == width && img.height == height {
        Ok(img)
    } else if fits_resampling(
        img.width as int,
        img.height as int,
        width as int,
        height as int,
        filter == Filter::Nearest,
    ) {
        Ok(
            picture(
                width,
                height,
                resampled(
                    img.data,
                    img.width as int,
                    img.height as int,
                    width as int,
                    height as int,
                    filter == Filter::Nearest,
                ),
            ),
        )
    } else {
        Err(EngineError::BufferConstruction)
    }
}

/// Whether `times * a * b` is at most `isize::MAX`, computed.
fn product_fits(times: u64, a: u32, b: u32) -> (fits: bool)
    requires
        1 <= times <= 16,
    ensures
        fits == (times * (a as int * b as int) <= isize::MAX),
{
    let product: u64 = pixel_count(a, b);
    let limit: u64 = (isize::MAX as u64) / times;
    proof {
        assert(product <= limit <==> times * product <= isize::MAX) by (nonlinear_arith)
            requires
                limit == (isize::MAX as int) / (times as int),
                1 <= times <= 16,
                0 <= product,
        ;
    }
    product <= limit
}

/// Whether a row of `width` pixels of `channels` bytes fits a `usize`.
fn row_fits(channels: u64, width: u32) -> (fits: bool)
    requires
        1 <= channels <= 4,
    ensures
        fits == (channels * width <= usize::MAX),
{
    proof {
        assert(channels * width <= 4 * 0xffff_ffff) by (nonlinear_arith)
            requires
                1 <= channels <= 4,
                0 <= width <= 0xffff_ffff,
        ;
    }
    channels * (width as u64) <= usize::MAX as u64
}

/// Rescales `img` to exactly `width` by `height` pixels.
pub fn resize_exact(img: &Raster, width: u32, height: u32, filter: Filter) -> (r: Result<
    Raster,
    EngineError,
>)
    requires
        img.wf(),
    ensures
        is_raster(r, resized(img@, width, height, filter)),
{
    if img.width == width && img.height == height {
        return Ok(Raster { width, height, data: img.data.clone() });
    }
    if !(product_fits(16, img.width, height) && product_fits(4, width, height) && row_fits(
        4,
        img.width,
    ) && row_fits(4, width)) {
        return Err(EngineError::BufferConstruction);
    }
    let nearest: bool = match filter {
        Filter::Nearest => true,
        Filter::Triangle => false,
    };
    if !nearest && (img.width > SAMPLING_LIMIT || img.height > SAMPLING_LIMIT || width
        > SAMPLING_LIMIT || height > SAMPLING_LIMIT) {
        return Err(EngineError::BufferConstruction);
    }
    let data: Vec<u8> = resample(img.data.as_slice(), img.width, img.height, width, height, filter);
    Ok(Raster { width, height, data })
}

/// What stands before the payload of a data URL of the given kind.
pub open spec fn url_prefix(kind: ImageKind) -> Seq<char> {
    match kind {
        ImageKind::Png => "data:image/png;base64,"@,
        ImageKind::Jpeg => "data:image/jpeg;base64,"@,
    }
}

/// The data URL of the given kind around a base64 payload.
pub fn data_url_of_text(kind: ImageKind, payload: &str) -> (url: String)
    ensures
        url@ == url_prefix(kind) + payload@,
{
    let prefix: &str = match kind {
        ImageKind::Png => "data:image/png;base64,",
        ImageKind::Jpeg => "data:image/jpeg;base64,",
    };
    String::from_str(prefix).concat(payload)
}

/// The data URL of an encoded image file, or `Encode` where the file is too
/// long for its base64 text to be addressed.
pub open spec fn url_of_file(kind: ImageKind, file: Seq<u8>) -> Result<Seq<char>, EngineError> {
    if file.len() <= usize::MAX / 2 {
        Ok(url_prefix(kind) + base64_text(file))
    } else {
        Err(EngineError::Encode)
    }
}

/// Whether `r` is the text or the error that `expected` describes.
pub open spec fn is_text(r: Result<String, EngineError>, expected: Result<
    Seq<char>,
    EngineError,
>) -> bool {
    match r {
        Ok(text) => expected == Ok::<Seq<char>, EngineError>(text@),
        Err(e) => expected == Err::<Seq<char>, EngineError>(e),
    }
}

/// Wraps an encoded image file into a data URL of the given kind.
pub fn data_url_of_file(kind: ImageKind, file: &[u8]) -> (r: Result<String, EngineError>)
    ensures
        is_text(r, url_of_file(kind, file@)),
{
    if file.len() > usize::MAX / 2 {
        return Err(EngineError::Encode);
    }
    let payload: String = base64_encode(file);
    Ok(data_url_of_text(kind, payload.as_str()))
}

/// The PNG data URL of an RGBA picture.
pub open spec fn png_url(data: Seq<u8>, width: int, height: int) -> Result<
    Seq<char>,
    EngineError,
> {
    match png_encoded(data, width, height) {
        Some(file) => url_of_file(ImageKind::Png, file),
        None => Err(EngineError::Encode),
    }
}

/// The PNG file of a raster, or `Encode` where the encoder fails.
pub fn encode_png(img: &Raster) -> (r: Result<Vec<u8>, EngineError>)
    requires
        img.wf(),
    ensures
        match r {
            Ok(file) => png_encoded(img.data@, img.width as int, img.height as int) == Some(file@),
            Err(e) => e == EngineError::Encode && png_encoded(
                img.data@,
                img.width as int,
                img.height as int,
            ) is None,
        },
{
    match png_bytes(img.data.as_slice(), img.width, img.height) {
        Ok(file) => Ok(file),
        Err(_) => Err(EngineError::Encode),
    }
}

/// Encodes a raster at full fidelity: PNG, as a data URL.
pub fn encode_to_data_url(img: &Raster) -> (r: Result<String, EngineError>)
    requires
        img.wf(),
    ensures
        is_text(r, png_url(img.data@, img.width as int, img.height as int)),
{
    match encode_png(img) {
        Ok(file) => data_url_of_file(ImageKind::Png, file.as_slice()),
        Err(e) => Err(e),
    }
}

/// The PNG data URL of the first `4 * width * height` bytes of a buffer,
/// or `BufferConstruction` where the buffer is shorter.
pub open spec fn rgba_url(buf: Seq<u8>, width: int, height: int) -> Result<
    Seq<char>,
    EngineError,
> {
    if buf.len() >= rgba_len(width, height) {
        png_url(buf.subrange(0, rgba_len(width, height)), width, height)
    } else {
        Err(EngineError::BufferConstruction)
    }
}

/// Encodes an RGBA buffer of `width` by `height` pixels as a PNG data URL.
pub fn encode_rgba_to_data_url(buf: &[u8], width: u32, height: u32) -> (r: Result<
    String,
    EngineError,
>)
    ensures
        is_text(r, rgba_url(buf@, width as int, height as int)),
{
    let count: u64 = pixel_count(width, height);
    if count > (buf.len() / 4) as u64 {
        return Err(EngineError::BufferConstruction);
    }
    let need: usize = 4 * (count as usize);
    let pixels: &[u8] = vstd::slice::slice_subrange(buf, 0, need);
    match png_bytes(pixels, width, height) {
        Ok(file) => data_url_of_file(ImageKind::Png, file.as_slice()),
        Err(_) => Err(EngineError::Encode),
    }
}

/// The RGB bytes of the first `count` pixels of RGBA bytes: alpha dropped.
pub open spec fn without_alpha(data: Seq<u8>, count: int) -> Seq<u8> {
    Seq::new((3 * count) as nat, |j: int| data[4 * (j / 3) + j % 3])
}

/// Drops the alpha channel of a raster.
pub fn drop_alpha(img: &Raster) -> (rgb: Vec<u8>)
    requires
        img.wf(),
    ensures
        rgb@ == without_alpha(img.data@, img.width as int * img.height as int),
{
    let total: usize = img.data.len();
    let count: usize = total / 4;
    let mut rgb: Vec<u8> = Vec::new();
    let mut p: usize = 0;
    while p < count
        invariant
            img.data@.len() == total,
            total == 4 * count,
            p <= count,
            rgb@ == without_alpha(img.data@, p as int),
        decreases count - p,
    {
        let ghost prev = rgb@;
        rgb.push(img.data[4 * p]);
        rgb.push(img.data[4 * p + 1]);
        rgb.push(img.data[4 * p + 2]);
        proof {
            let next = without_alpha(img.data@, p + 1);
            assert forall|j: int| 0 <= j < next.len() implies rgb@[j] == next[j] by {
                if j < 3 * p {
                    assert(rgb@[j] == prev[j]);
                } else {
                    assert(j / 3 == p);
                    assert(j % 3 == j - 3 * p);
                }
            }
            assert(rgb@ =~= next);
        }
        p += 1;
    }
    rgb
}

/// The JPEG data URL of an RGBA picture: alpha dropped, quality 85.  A
/// picture whose rows do not fit a `usize` is not put to the encoder.
pub open spec fn preview_url(data: Seq<u8>, width: int, height: int) -> Result<
    Seq<char>,
    EngineError,
> {
    if 3 * width > usize::MAX {
        Err(EngineError::Encode)
    } else {
        match jpeg_encoded(
            without_alpha(data, width * height),
            width,
            height,
            PREVIEW_QUALITY as int,
        ) {
            Some(file) => url_of_file(ImageKind::Jpeg, file),
            None => Err(EngineError::Encode),
        }
    }
}

/// Encodes a raster as a preview: JPEG without alpha, as a data URL.
pub fn encode_preview_data_url(img: &Raster) -> (r: Result<String, EngineError>)
    requires
        img.wf(),
    ensures
        is_text(r, preview_url(img.data@, img.width as int, img.height as int)),
{
    if !row_fits(3, img.width) {
        return Err(EngineError::Encode);
    }
    let rgb: Vec<u8> = drop_alpha(img);
    match jpeg_bytes(rgb.as_slice(), img.width, img.height, PREVIEW_QUALITY) {
        Ok(file) => data_url_of_file(ImageKind::Jpeg, file.as_slice()),
        Err(_) => Err(EngineError::Encode),
    }
}

/// The base64 payload of a data URL: what follows a leading
/// `data:image/png;base64,`, or the whole text where it does not start so.
pub open spec fn payload_of(url: Seq<char>) -> Seq<char> {
    let prefix = url_prefix(ImageKind::Png);
    if url.len() >= prefix.len() && url.subrange(0, prefix.len() as int) == prefix {
        url.subrange(prefix.len() as int, url.len() as int)
    } else {
        url
    }
}

/// Strips a leading `data:image/png;base64,` from a data URL.
pub fn strip_data_url_prefix(url: &str) -> (payload: &str)
    ensures
        payload@ == payload_of(url@),
{
    let prefix: &str = "data:image/png;base64,";
    proof {
        reveal_strlit("data:image/png;base64,");
    }
    let total: usize = url.unicode_len();
    if total < 22 {
        return url;
    }
    let mut i: usize = 0;
    while i < 22
        invariant
            prefix@ == url_prefix(ImageKind::Png),
            prefix@.len() == 22,
            total == url@.len(),
            22 <= total,
            i <= 22,
            forall|j: int| 0 <= j < i ==> url@[j] == prefix@[j],
        decreases 22 - i,
    {
        if url.get_char(i) != prefix.get_char(i) {
            proof {
                assert(url@.subrange(0, 22)[i as int] == url@[i as int]);
            }
            return url;
        }
        i += 1;
    }
    proof {
        assert(url@.subrange(0, 22) =~= prefix@);
    }
    url.substring_char(22, total)
}

/// The bytes of a data URL, or `Base64` where its payload is malformed.
pub open spec fn url_bytes(url: Seq<char>) -> Result<Seq<u8>, EngineError> {
    match base64_decoded(payload_of(url)) {
        Some(bytes) => Ok(bytes),
        None => Err(EngineError::Base64),
    }
}

/// Decodes a data URL into the bytes of its payload.
pub fn data_url_to_bytes(url: &str) -> (r: Result<Vec<u8>, EngineError>)
    ensures
        match r {
            Ok(bytes) => url_bytes(url@) == Ok::<Seq<u8>, EngineError>(bytes@),
            Err(e) => url_bytes(url@) == Err::<Seq<u8>, EngineError>(e),
        },
{
    match base64_decode(strip_data_url_prefix(url)) {
        Ok(bytes) => Ok(bytes),
        Err(_) => Err(EngineError::Base64),
    }
}

} // verus!
