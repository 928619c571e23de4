//! The interactive resize operation and the preload, both backed by the
//! image cache.
//!
//! Reading the files and holding the lock of the cache is the caller's
//! part: a lookup or a store works on the cache, the decoding and encoding
//! in between does not touch it.

use vstd::prelude::*;
use vstd::string::StringExecFns;
use crate::cache::{inserted, retains, CachedImage, ImageCache, Slot};
use crate::codec::{
    data_url_of_file, decode_raster, decoded_file, encode_png, png_encoded,
    resize_exact, resized, url_of_file, Filter, ImageKind,
};
use crate::error::EngineError;
use crate::raster::{Raster, RasterView};
use crate::text::{decimal, push_decimal};

verus! {

/// A picture resized for display, as a PNG data URL, with the dimensions
/// after and before the resize.
#[derive(Debug, Clone, PartialEq, Eq)]
pub struct ImageResult {
    pub data_url: String,
    pub width: u32,
    pub height: u32,
    pub original_width: u32,
    pub original_height: u32,
}

/// The key of a picture in the cache: `{path}:{max_width}x{max_height}`.
pub open spec fn cache_key_text(path: Seq<char>, max_width: u32, max_height: u32) -> Seq<char> {
    path + seq![':'] + decimal(max_width as nat) + seq!['x'] + decimal(max_height as nat)
}

/// The key of a picture in the cache.
pub fn cache_key(path: &str, max_width: u32, max_height: u32) -> (key: String)
    ensures
        key@ == cache_key_text(path@, max_width, max_height),
{
    proof {
        reveal_strlit(":");
        reveal_strlit("x");
    }
    let mut key: String = String::from_str(path);
    key.append(":");
    push_decimal(&mut key, max_width as u64);
    key.append("x");
    push_decimal(&mut key, max_height as u64);
    proof {
        assert(":"@ =~= seq![':']);
        assert("x"@ =~= seq!['x']);
    }
    key
}

/// `p / q` rounded to the nearest integer, halves up.
pub open spec fn round_div(p: int, q: int) -> int {
    (2 * p + q) / (2 * q)
}

/// A scaled dimension, kept at 1 at least where the picture has a pixel.
pub open spec fn at_least_one(scaled: int, original: int) -> int {
    if scaled < 1 && original >= 1 {
        1
    } else {
        scaled
    }
}

/// The dimensions of a picture of `width` by `height` pixels fitted into
/// `max_width` by `max_height`: its own where it fits, else scaled down by
/// the tighter of the two caps, the aspect ratio kept up to rounding.
pub open spec fn fitted(width: int, height: int, max_width: int, max_height: int) -> (int, int) {
    if width <= max_width && height <= max_height {
        (width, height)
    } else if width > 0 && max_width * height <= max_height * width {
        (
            at_least_one(max_width, width),
            at_least_one(round_div(height * max_width, width), height),
        )
    } else {
        (
            at_least_one(round_div(width * max_height, height), width),
            at_least_one(max_height, height),
        )
    }
}

/// `side * cap / other`, rounded, for a cap below `other`.
fn scale_side(side: u32, cap: u32, other: u32) -> (scaled: u32)
    requires
        cap < other,
    ensures
        scaled == round_div(side as int * cap as int, other as int),
        scaled <= side,
{
    proof {
        assert(side as int * cap as int <= 0xffff_ffff * 0xffff_ffff) by (nonlinear_arith)
            requires
                0 <= side <= 0xffff_ffff,
                0 <= cap <= 0xffff_ffff,
        ;
    }
    let p: u128 = side as u128 * cap as u128;
    let sum: u128 = 2 * p + other as u128;
    let q: u128 = sum / (2 * (other as u128));
    proof {
        vstd::arithmetic::div_mod::lemma_fundamental_div_mod(sum as int, 2 * other as int);
        assert(q <= side) by (nonlinear_arith)
            requires
                sum == (2 * other) * q + (sum as int) % (2 * other as int),
                0 <= (sum as int) % (2 * other as int),
                sum == 2 * (side * cap) + other,
                0 <= cap < other,
                0 <= side,
                0 <= q,
        ;
    }
    q as u32
}

/// The dimensions of a picture fitted into `max_width` by `max_height`.
pub fn fit_dimensions(width: u32, height: u32, max_width: u32, max_height: u32) -> (r: (u32, u32))
    ensures
        (r.0 as int, r.1 as int) == fitted(
            width as int,
            height as int,
            max_width as int,
            max_height as int,
        ),
        r.0 <= width,
        r.1 <= height,
{
    if width <= max_width && height <= max_height {
        return (width, height);
    }
    proof {
        assert(max_width as int * height as int <= 0xffff_ffff * 0xffff_ffff
            && max_height as int * width as int <= 0xffff_ffff * 0xffff_ffff)
            by (nonlinear_arith)
            requires
                0 <= width <= 0xffff_ffff,
                0 <= height <= 0xffff_ffff,
                0 <= max_width <= 0xffff_ffff,
                0 <= max_height <= 0xffff_ffff,
        ;
    }
    let across: u64 = max_width as u64 * height as u64;
    let down: u64 = max_height as u64 * width as u64;
    if width > 0 && across <= down {
        proof {
            assert(max_width < width) by (nonlinear_arith)
                requires
                    max_width * height <= max_height * width,
                    !(width <= max_width && height <= max_height),
                    width > 0,
                    0 <= height,
                    0 <= max_width,
                    0 <= max_height,
            ;
        }
        let scaled: u32 = scale_side(height, max_width, width);
        (
            if max_width < 1 {
                1
            } else {
                max_width
            },
            if scaled < 1 && height >= 1 {
                1
            } else {
                scaled
            },
        )
    } else {
        proof {
            assert(max_height < height) by (nonlinear_arith)
                requires
                    width == 0 || max_width * height > max_height * width,
                    !(width <= max_width && height <= max_height),
                    0 <= width,
                    0 <= height,
                    0 <= max_width,
                    0 <= max_height,
            ;
        }
        let scaled: u32 = scale_side(width, max_height, height);
        (
            if scaled < 1 && width >= 1 {
                1
            } else {
                scaled
            },
            if max_height < 1 {
                1
            } else {
                max_height
            },
        )
    }
}

/// A picture fitted into `max_width` by `max_height` with the triangle
/// filter; a picture that fits stays as it is.
pub open spec fn fitted_raster(img: RasterView, max_width: u32, max_height: u32) -> Result<
    RasterView,
    EngineError,
> {
    let dims = fitted(img.width as int, img.height as int, max_width as int, max_height as int);
    resized(img, dims.0 as u32, dims.1 as u32, Filter::Triangle)
}

/// A picture prepared for the cache, with the dimensions of its source.
#[derive(Debug, Clone, PartialEq, Eq)]
pub struct Prepared {
    pub image: CachedImage,
    pub original_width: u32,
    pub original_height: u32,
}

/// What preparing a picture yields: the PNG file of the picture fitted
/// into the caps, the dimensions of the fitted picture and those of the
/// picture itself.
pub open spec fn prepared_from(img: RasterView, max_width: u32, max_height: u32) -> Result<
    (Seq<u8>, nat, nat, nat, nat),
    EngineError,
> {
    match fitted_raster(img, max_width, max_height) {
        Err(e) => Err(e),
        Ok(small) => match png_encoded(small.data, small.width as int, small.height as int) {
            None => Err(EngineError::Encode),
            Some(file) => Ok((file, small.width, small.height, img.width, img.height)),
        },
    }
}

/// Whether `r` is the prepared picture or the error that `expected`
/// describes.
pub open spec fn is_prepared(r: Result<Prepared, EngineError>, expected: Result<
    (Seq<u8>, nat, nat, nat, nat),
    EngineError,
>) -> bool {
    match r {
        Ok(found) => expected == Ok::<(Seq<u8>, nat, nat, nat, nat), EngineError>(
            (
                found.image.data@,
                found.image.width as nat,
                found.image.height as nat,
                found.original_width as nat,
                found.original_height as nat,
            ),
        ),
        Err(e) => expected == Err::<(Seq<u8>, nat, nat, nat, nat), EngineError>(e),
    }
}

/// Fits a raster into `max_width` by `max_height`, never enlarging it, and
/// encodes the outcome as PNG.
pub fn resize_image_to_png(img: &Raster, max_width: u32, max_height: u32) -> (r: Result<
    Prepared,
    EngineError,
>)
    requires
        img.wf(),
    ensures
        is_prepared(r, prepared_from(img@, max_width, max_height)),
{
    let (width, height) = fit_dimensions(img.width, img.height, max_width, max_height);
    let small: Raster = resize_exact(img, width, height, Filter::Triangle)?;
    let data: Vec<u8> = encode_png(&small)?;
    Ok(
        Prepared {
            image: CachedImage { data, width, height },
            original_width: img.width,
            original_height: img.height,
        },
    )
}

/// What preparing the content of a raster file yields.
pub open spec fn prepared_file(
    bytes: Seq<u8>,
    path: Seq<char>,
    max_width: u32,
    max_height: u32,
) -> Result<(Seq<u8>, nat, nat, nat, nat), EngineError> {
    match decoded_file(bytes, path) {
        Err(e) => Err(e),
        Ok(img) => prepared_from(img, max_width, max_height),
    }
}

/// Decodes the content of a raster file and prepares it for the cache.
/// The cache is not touched.
pub fn prepare_image(bytes: &[u8], path: &str, max_width: u32, max_height: u32) -> (r: Result<
    Prepared,
    EngineError,
>)
    ensures
        is_prepared(r, prepared_file(bytes@, path@, max_width, max_height)),
{
    let img: Raster = decode_raster(bytes, path)?;
    resize_image_to_png(&img, max_width, max_height)
}

/// What a cached picture is shown as: its data URL with its dimensions,
/// which also stand in for the dimensions of the source.
pub open spec fn shown(image: CachedImage, original_width: u32, original_height: u32) -> Result<
    (Seq<char>, u32, u32, u32, u32),
    EngineError,
> {
    match url_of_file(ImageKind::Png, image.data@) {
        Err(e) => Err(e),
        Ok(url) => Ok((url, image.width, image.height, original_width, original_height)),
    }
}

/// Whether `r` is the result or the error that `expected` describes.
pub open spec fn is_image_result(r: Result<ImageResult, EngineError>, expected: Result<
    (Seq<char>, u32, u32, u32, u32),
    EngineError,
>) -> bool {
    match r {
        Ok(found) => expected == Ok::<(Seq<char>, u32, u32, u32, u32), EngineError>(
            (
                found.data_url@,
                found.width,
                found.height,
                found.original_width,
                found.original_height,
            ),
        ),
        Err(e) => expected == Err::<(Seq<char>, u32, u32, u32, u32), EngineError>(e),
    }
}

/// Shows a cached picture.
pub fn show_image(image: &CachedImage, original_width: u32, original_height: u32) -> (r: Result<
    ImageResult,
    EngineError,
>)
    ensures
        is_image_result(r, shown(*image, original_width, original_height)),
{
    let data_url: String = data_url_of_file(ImageKind::Png, image.data.as_slice())?;
    Ok(
        ImageResult {
            data_url,
            width: image.width,
            height: image.height,
            original_width,
            original_height,
        },
    )
}

/// Looks a picture up in the cache.  On a hit the cached picture is shown
/// with its own dimensions in place of those of the source, which the
/// cache does not hold; on a miss there is nothing.
pub fn lookup_image(cache: &ImageCache, path: &str, max_width: u32, max_height: u32) -> (r: Option<
    Result<ImageResult, EngineError>,
>)
    ensures
        r is Some <==> retains(cache@, cache_key_text(path@, max_width, max_height)),
        r matches Some(found) ==> exists|i: int|
            0 <= i < cache@.len() && (#[trigger] cache@[i]).key == cache_key_text(
                path@,
                max_width,
                max_height,
            ) && is_image_result(
                found,
                shown(cache@[i].image, cache@[i].image.width, cache@[i].image.height),
            ),
{
    let key: String = cache_key(path, max_width, max_height);
    match cache.get(key.as_str()) {
        Some(image) => Some(show_image(image, image.width, image.height)),
        None => None,
    }
}

/// Stores a prepared picture in the cache under the key of its path and
/// caps, and shows it with the dimensions of its source.
pub fn store_image(
    cache: &mut ImageCache,
    path: &str,
    max_width: u32,
    max_height: u32,
    prepared: Prepared,
) -> (r: Result<ImageResult, EngineError>)
    requires
        old(cache).wf(),
    ensures
        final(cache).wf(),
        final(cache).capacity() == old(cache).capacity(),
        final(cache)@ == inserted(
            old(cache)@,
            old(cache).capacity(),
            Slot { key: cache_key_text(path@, max_width, max_height), image: prepared.image },
        ),
        is_image_result(
            r,
            shown(prepared.image, prepared.original_width, prepared.original_height),
        ),
{
    let key: String = cache_key(path, max_width, max_height);
    let result = show_image(&prepared.image, prepared.original_width, prepared.original_height);
    cache.insert(key, prepared.image);
    result
}

/// The paths among the first `upto` whose picture is not in the cache, in
/// their order.
pub open spec fn missing_paths(
    slots: Seq<Slot>,
    paths: Seq<String>,
    max_width: u32,
    max_height: u32,
    upto: int,
) -> Seq<Seq<char>>
    decreases upto,
{
    if upto <= 0 {
        Seq::<Seq<char>>::empty()
    } else {
        let before = missing_paths(slots, paths, max_width, max_height, upto - 1);
        if retains(slots, cache_key_text(paths[upto - 1]@, max_width, max_height)) {
            before
        } else {
            before.push(paths[upto - 1]@)
        }
    }
}

/// The texts of some strings.
pub open spec fn texts(strings: Seq<String>) -> Seq<Seq<char>> {
    Seq::new(strings.len(), |i: int| strings[i]@)
}

/// The paths whose picture, under the given caps, is not in the cache yet.
pub fn paths_to_load(
    cache: &ImageCache,
    paths: &Vec<String>,
    max_width: u32,
    max_height: u32,
) -> (r: Vec<String>)
    ensures
        texts(r@) == missing_paths(cache@, paths@, max_width, max_height, paths@.len() as int),
{
    let mut todo: Vec<String> = Vec::new();
    let mut i: usize = 0;
    proof {
        assert(texts(todo@) =~= missing_paths(cache@, paths@, max_width, max_height, 0));
    }
    while i < paths.len()
        invariant
            i <= paths@.len(),
            texts(todo@) == missing_paths(cache@, paths@, max_width, max_height, i as int),
        decreases paths@.len() - i,
    {
        let key: String = cache_key(paths[i].as_str(), max_width, max_height);
        if !cache.contains(key.as_str()) {
            let ghost before = todo@;
            todo.push(paths[i].clone());
            proof {
                assert(texts(todo@) =~= texts(before).push(paths@[i as int]@));
            }
        }
        i += 1;
    }
    todo
}

/// A picture that the preload tried to load: its path, and the prepared
/// picture or the message of the failure.
#[derive(Debug, PartialEq, Eq)]
pub struct Preloaded {
    pub path: String,
    pub outcome: Result<CachedImage, String>,
}

/// The status line of a preloaded picture: `loaded:{path}` or
/// `error:{path}:{message}`.
pub open spec fn status_text(item: Preloaded) -> Seq<char> {
    match item.outcome {
        Ok(_) => "loaded:"@ + item.path@,
        Err(message) => "error:"@ + item.path@ + ":"@ + message@,
    }
}

/// The slots after one preloaded picture is stored: a picture that was
/// loaded is inserted, a failure leaves the cache as it is.
pub open spec fn stored_slots(
    slots: Seq<Slot>,
    capacity: int,
    item: Preloaded,
    max_width: u32,
    max_height: u32,
) -> Seq<Slot> {
    match item.outcome {
        Ok(image) => inserted(
            slots,
            capacity,
            Slot { key: cache_key_text(item.path@, max_width, max_height), image },
        ),
        Err(_) => slots,
    }
}

/// The slots after the first `upto` preloaded pictures are stored, in
/// order.
pub open spec fn preloaded_slots(
    slots: Seq<Slot>,
    capacity: int,
    loaded: Seq<Preloaded>,
    max_width: u32,
    max_height: u32,
    upto: int,
) -> Seq<Slot>
    decreases upto,
{
    if upto <= 0 {
        slots
    } else {
        stored_slots(
            preloaded_slots(slots, capacity, loaded, max_width, max_height, upto - 1),
            capacity,
            loaded[upto - 1],
            max_width,
            max_height,
        )
    }
}

/// The status lines of a preload: one per picture, or the single line
/// `all cached` where nothing had to be loaded.
pub open spec fn preload_report(loaded: Seq<Preloaded>) -> Seq<Seq<char>> {
    if loaded.len() == 0 {
        seq!["all cached"@]
    } else {
        Seq::new(loaded.len(), |i: int| status_text(loaded[i]))
    }
}

/// Stores one preloaded picture and gives its status line.
pub fn store_preloaded(
    cache: &mut ImageCache,
    item: Preloaded,
    max_width: u32,
    max_height: u32,
) -> (status: String)
    requires
        old(cache).wf(),
    ensures
        final(cache).wf(),
        final(cache).capacity() == old(cache).capacity(),
        final(cache)@ == stored_slots(
            old(cache)@,
            old(cache).capacity(),
            item,
            max_width,
            max_height,
        ),
        status@ == status_text(item),
{
    match item.outcome {
        Ok(image) => {
            let key: String = cache_key(item.path.as_str(), max_width, max_height);
            cache.insert(key, image);
            String::from_str("loaded:").concat(item.path.as_str())
        },
        Err(message) => {
            let mut status: String = String::from_str("error:");
            status.append(item.path.as_str());
            status.append(":");
            status.append(message.as_str());
            status
        },
    }
}

/// Stores the pictures of a preload in the cache, in one batch, and
/// reports on each.
pub fn store_all_preloaded(
    cache: &mut ImageCache,
    loaded: Vec<Preloaded>,
    max_width: u32,
    max_height: u32,
) -> (report: Vec<String>)
    requires
        old(cache).wf(),
    ensures
        final(cache).wf(),
        final(cache).capacity() == old(cache).capacity(),
        final(cache)@ == preloaded_slots(
            old(cache)@,
            old(cache).capacity(),
            loaded@,
            max_width,
            max_height,
            loaded@.len() as int,
        ),
        texts(report@) == preload_report(loaded@),
{
    let mut report: Vec<String> = Vec::new();
    if loaded.len() == 0 {
        report.push(String::from_str("all cached"));
        proof {
            assert(texts(report@) =~= preload_report(loaded@));
        }
        return report;
    }
    let ghost items = loaded@;
    let ghost start = cache@;
    let ghost capacity = cache.capacity();
    let mut rest: Vec<Preloaded> = loaded;
    let mut done: usize = 0;
    let total: usize = rest.len();
    while rest.len() > 0
        invariant
            cache.wf(),
            cache.capacity() == capacity,
            total == items.len(),
            done + rest@.len() == total,
            rest@ == items.subrange(done as int, total as int),
            cache@ == preloaded_slots(start, capacity, items, max_width, max_height, done as int),
            report@.len() == done,
            forall|i: int| 0 <= i < done ==> (#[trigger] report@[i])@ == status_text(items[i]),
        decreases rest@.len(),
    {
        let item: Preloaded = rest.remove(0);
        proof {
            assert(item == items[done as int]);
            assert(rest@ =~= items.subrange(done + 1, total as int));
        }
        let status: String = store_preloaded(cache, item, max_width, max_height);
        report.push(status);
        done += 1;
    }
    proof {
        assert(texts(report@) =~= preload_report(items));
    }
    report
}

} // verus!
