//! Decoder for the flattened composite of a layered picture file.
//!
//! Only the image-data section is decoded; the layer tree is skipped.  All
//! integers of the format are big-endian.

use vstd::prelude::*;
use crate::error::LpfError;
use crate::packbits::{decode_packbits, lemma_unpack_len, min_int, unpack};
use crate::raster::{pixel_count, rgba_len, Raster, RasterView};
use crate::reader::{be16, be32, be64, read_u16, read_u32, read_u64};

verus! {

/// Whether the buffer starts with the four-byte tag `8BPS`.
pub open spec fn has_signature(b: Seq<u8>) -> bool {
    b[0] == 0x38 && b[1] == 0x42 && b[2] == 0x50 && b[3] == 0x53
}

/// The version field: 1 is the standard format, 2 the large-file variant.
pub open spec fn lpf_version(b: Seq<u8>) -> int {
    be16(b, 4)
}

/// The number of channels stored in the image-data section.
pub open spec fn lpf_channels(b: Seq<u8>) -> int {
    be16(b, 12)
}

/// The height of the picture in pixels.
pub open spec fn lpf_height(b: Seq<u8>) -> int {
    be32(b, 14)
}

/// The width of the picture in pixels.
pub open spec fn lpf_width(b: Seq<u8>) -> int {
    be32(b, 18)
}

/// The bit depth of a channel sample.
pub open spec fn lpf_depth(b: Seq<u8>) -> int {
    be16(b, 22)
}

/// The colour mode; 4 is the four-ink process mode.
pub open spec fn lpf_color_mode(b: Seq<u8>) -> int {
    be16(b, 24)
}

/// Where the image-resources section starts: behind the header and the
/// colour-mode data, whose length is the `u32` at offset 26.
pub open spec fn resources_at(b: Seq<u8>) -> int {
    30 + be32(b, 26)
}

/// Where the layer-and-mask section starts.
pub open spec fn layers_at(b: Seq<u8>) -> int {
    resources_at(b) + 4 + be32(b, resources_at(b))
}

/// The width of the length prefix of the layer-and-mask section.
pub open spec fn layer_prefix(b: Seq<u8>) -> int {
    if lpf_version(b) == 2 {
        8
    } else {
        4
    }
}

/// Where the image-data section starts.
pub open spec fn image_data_at(b: Seq<u8>) -> int {
    if lpf_version(b) == 2 {
        layers_at(b) + 8 + be64(b, layers_at(b))
    } else {
        layers_at(b) + 4 + be32(b, layers_at(b))
    }
}

/// Whether the three length prefixes and the compression field all lie
/// inside the buffer.
pub open spec fn sections_fit(b: Seq<u8>) -> bool {
    &&& 30 <= b.len()
    &&& resources_at(b) + 4 <= b.len()
    &&& layers_at(b) + layer_prefix(b) <= b.len()
    &&& image_data_at(b) + 2 <= b.len()
}

/// The compression field: 0 is raw, 1 is run-length encoded.
pub open spec fn lpf_compression(b: Seq<u8>) -> int {
    be16(b, image_data_at(b))
}

/// Where the channel data (raw) or the scanline byte counts (run-length
/// encoded) start.
pub open spec fn planes_at(b: Seq<u8>) -> int {
    image_data_at(b) + 2
}

/// Whether the picture is in the four-ink process mode.
pub open spec fn is_four_ink(b: Seq<u8>) -> bool {
    lpf_color_mode(b) == 4
}

/// How many channel planes are decoded: up to four in the four-ink mode, up
/// to three otherwise.
pub open spec fn planes_read(b: Seq<u8>) -> int {
    min_int(
        lpf_channels(b),
        if is_four_ink(b) {
            4
        } else {
            3
        },
    )
}

/// The number of samples of one channel plane.
pub open spec fn plane_len(b: Seq<u8>) -> int {
    lpf_width(b) * lpf_height(b)
}

/// Plane `c` of a raw image-data section.
pub open spec fn raw_plane(b: Seq<u8>, c: int) -> Seq<u8> {
    b.subrange(planes_at(b) + c * plane_len(b), planes_at(b) + (c + 1) * plane_len(b))
}

/// Whether the decoded planes of a raw image-data section lie inside the
/// buffer.
pub open spec fn raw_fits(b: Seq<u8>) -> bool {
    planes_at(b) + planes_read(b) * plane_len(b) <= b.len()
}

/// The number of scanline byte counts in a run-length encoded section.
pub open spec fn table_rows(b: Seq<u8>) -> int {
    lpf_channels(b) * lpf_height(b)
}

/// The byte count of scanline `k`, counted over all channels.
pub open spec fn row_count(b: Seq<u8>, k: int) -> int {
    be16(b, planes_at(b) + 2 * k)
}

/// Where the encoded scanlines start, behind the table of byte counts.
pub open spec fn rows_at(b: Seq<u8>) -> int {
    planes_at(b) + 2 * table_rows(b)
}

/// The total byte count of the scanlines before scanline `k`.
pub open spec fn row_bytes_before(b: Seq<u8>, k: int) -> int
    decreases k,
{
    if k <= 0 {
        0
    } else {
        row_bytes_before(b, k - 1) + row_count(b, k - 1)
    }
}

/// Where the encoded bytes of scanline `k` start.
pub open spec fn row_start(b: Seq<u8>, k: int) -> int {
    rows_at(b) + row_bytes_before(b, k)
}

/// Whether the table of byte counts and the scanlines of the decoded planes
/// lie inside the buffer.
pub open spec fn rle_fits(b: Seq<u8>) -> bool {
    &&& rows_at(b) <= b.len()
    &&& row_start(b, planes_read(b) * lpf_height(b)) <= b.len()
}

/// `s` cut or filled with zeros to exactly `n` bytes.
pub open spec fn zero_padded(s: Seq<u8>, n: int) -> Seq<u8> {
    Seq::new(
        n as nat,
        |i: int|
            if i < s.len() {
                s[i]
            } else {
                0u8
            },
    )
}

/// The samples of scanline `k`: its PackBits stream decoded to the width of
/// the picture, with zeros where the stream ends early.
pub open spec fn rle_row(b: Seq<u8>, k: int) -> Seq<u8> {
    zero_padded(
        unpack(b.subrange(row_start(b, k), row_start(b, k) + row_count(b, k)), lpf_width(b) as nat),
        lpf_width(b),
    )
}

/// The samples of the `n` scanlines from scanline `first` on, row after row.
pub open spec fn rle_rows(b: Seq<u8>, first: int, n: int) -> Seq<u8>
    decreases n,
{
    if n <= 0 {
        Seq::<u8>::empty()
    } else {
        rle_rows(b, first, n - 1) + rle_row(b, first + n - 1)
    }
}

/// Plane `c` of a run-length encoded image-data section.
pub open spec fn rle_plane(b: Seq<u8>, c: int) -> Seq<u8> {
    rle_rows(b, c * lpf_height(b), lpf_height(b))
}

/// Plane `c` of the image-data section.
pub open spec fn lpf_plane(b: Seq<u8>, c: int) -> Seq<u8> {
    if lpf_compression(b) == 0 {
        raw_plane(b, c)
    } else {
        rle_plane(b, c)
    }
}

/// Whether the data of the decoded planes lies inside the buffer.
pub open spec fn data_fits(b: Seq<u8>) -> bool {
    if lpf_compression(b) == 0 {
        raw_fits(b)
    } else {
        rle_fits(b)
    }
}

/// The decoded planes, in file order.
pub open spec fn lpf_planes(b: Seq<u8>) -> Seq<Seq<u8>> {
    Seq::new(planes_read(b) as nat, |c: int| lpf_plane(b, c))
}

/// The light left by an ink under black: `255 - min(ink + black, 255)`.
pub open spec fn ink_to_light(ink: int, black: int) -> int {
    255 - min_int(ink + black, 255)
}

/// Channel `c` of pixel `i` of the composite of `planes`.
///
/// Alpha is always 255.  Outside the four-ink mode red, green and blue are
/// planes 0, 1 and 2, and plane 0 stands in for a missing one.  In the
/// four-ink mode an ink is the plane of its number, or the last plane where
/// that one is missing; black is plane 3, or plane 0 where there are fewer
/// than four.
pub open spec fn composite_channel(planes: Seq<Seq<u8>>, four_ink: bool, i: int, c: int) -> u8 {
    let n = planes.len() as int;
    if c == 3 {
        255u8
    } else if four_ink {
        let ink = planes[min_int(c, n - 1)][i];
        let black = if n >= 4 {
            planes[3][i]
        } else {
            planes[0][i]
        };
        ink_to_light(ink as int, black as int) as u8
    } else if c < n {
        planes[c][i]
    } else {
        planes[0][i]
    }
}

/// The RGBA bytes of the composite of `planes`, `count` pixels long.
pub open spec fn composite(planes: Seq<Seq<u8>>, four_ink: bool, count: int) -> Seq<u8> {
    Seq::new((4 * count) as nat, |j: int| composite_channel(planes, four_ink, j / 4, j % 4))
}

/// The RGBA bytes of the picture.
pub open spec fn lpf_pixels(b: Seq<u8>) -> Seq<u8> {
    composite(lpf_planes(b), is_four_ink(b), plane_len(b))
}

/// What decoding the buffer `b` yields: the flattened picture, or the first
/// reason, in this order, why there is none.  The file is read in its own
/// order: the tag is judged as soon as its four bytes are there, the
/// version as soon as its two are, and only then is the rest of the
/// 26-byte header asked for.
pub open spec fn lpf_decode(b: Seq<u8>) -> Result<RasterView, LpfError> {
    if b.len() >= 4 && !has_signature(b) {
        Err(LpfError::BadSignature)
    } else if b.len() >= 6 && lpf_version(b) != 1 && lpf_version(b) != 2 {
        Err(LpfError::UnsupportedVersion(lpf_version(b) as u16))
    } else if b.len() < 26 {
        Err(LpfError::TooSmall)
    } else if lpf_depth(b) != 8 {
        Err(LpfError::UnsupportedDepth(lpf_depth(b) as u16))
    } else if !sections_fit(b) {
        Err(LpfError::Truncated)
    } else if lpf_compression(b) != 0 && lpf_compression(b) != 1 {
        Err(LpfError::UnsupportedCompression(lpf_compression(b) as u16))
    } else if !data_fits(b) {
        Err(LpfError::Truncated)
    } else if lpf_channels(b) == 0 {
        Err(LpfError::NoChannels)
    } else if rgba_len(lpf_width(b), lpf_height(b)) > usize::MAX {
        Err(LpfError::BufferConstruction)
    } else {
        Ok(
            RasterView {
                width: lpf_width(b) as nat,
                height: lpf_height(b) as nat,
                data: lpf_pixels(b),
            },
        )
    }
}

/// The plane samples as sequences, one per plane.
pub open spec fn plane_seqs(planes: Seq<Vec<u8>>) -> Seq<Seq<u8>> {
    Seq::new(planes.len(), |c: int| planes[c]@)
}

/// The byte counts of scanlines add up monotonically.
proof fn lemma_row_bytes_monotone(b: Seq<u8>, j: int, k: int)
    requires
        0 <= j <= k,
    ensures
        0 <= row_bytes_before(b, j) <= row_bytes_before(b, k),
        row_bytes_before(b, k) <= 0xffff * k,
    decreases k,
{
    if k > 0 {
        if j < k {
            lemma_row_bytes_monotone(b, j, k - 1);
        } else {
            lemma_row_bytes_monotone(b, j - 1, k - 1);
        }
    }
}

/// `n` scanlines hold `n` times the width of the picture in samples.
proof fn lemma_rle_rows_len(b: Seq<u8>, first: int, n: int)
    requires
        0 <= n,
    ensures
        rle_rows(b, first, n).len() == n * lpf_width(b),
    decreases n,
{
    if n > 0 {
        lemma_rle_rows_len(b, first, n - 1);
        assert((n - 1) * lpf_width(b) + lpf_width(b) == n * lpf_width(b)) by (nonlinear_arith);
    } else {
        assert(0 * lpf_width(b) == 0);
    }
}

/// The position behind a section of `amount` bytes that starts at `offset`,
/// or `None` when the section reaches past the `total` bytes of the buffer.
fn skip_section(total: usize, offset: usize, amount: u64) -> (r: Option<usize>)
    requires
        offset <= total,
    ensures
        offset + amount <= total ==> r == Some((offset + amount) as usize),
        offset + amount > total ==> r is None,
{
    if amount > (total - offset) as u64 {
        None
    } else {
        Some(offset + amount as usize)
    }
}

/// Skips the colour-mode data, the image resources and the layer-and-mask
/// section, and returns where the image-data section starts.
fn locate_image_data(bytes: &[u8]) -> (r: Result<usize, LpfError>)
    requires
        bytes@.len() >= 26,
    ensures
        sections_fit(bytes@) ==> r == Ok::<usize, LpfError>(image_data_at(bytes@) as usize),
        !sections_fit(bytes@) ==> r == Err::<usize, LpfError>(LpfError::Truncated),
{
    let total: usize = bytes.len();
    let mut offset: usize = 4;
    let version: u16 = read_u16(bytes, &mut offset)?;
    offset = 26;
    let color_len: u32 = read_u32(bytes, &mut offset)?;
    let resources: usize = match skip_section(total, offset, color_len as u64) {
        Some(at) => at,
        None => {
            return Err(LpfError::Truncated);
        },
    };
    offset = resources;
    let resource_len: u32 = read_u32(bytes, &mut offset)?;
    let layers: usize = match skip_section(total, offset, resource_len as u64) {
        Some(at) => at,
        None => {
            return Err(LpfError::Truncated);
        },
    };
    offset = layers;
    let layer_len: u64 = if version == 2 {
        read_u64(bytes, &mut offset)?
    } else {
        read_u32(bytes, &mut offset)? as u64
    };
    let image_data: usize = match skip_section(total, offset, layer_len) {
        Some(at) => at,
        None => {
            return Err(LpfError::Truncated);
        },
    };
    if total - image_data < 2 {
        return Err(LpfError::Truncated);
    }
    Ok(image_data)
}

/// The byte count of scanline `k` from the table at `table_at`.
fn row_count_at(bytes: &[u8], table_at: usize, k: u64) -> (count: u16)
    requires
        table_at == planes_at(bytes@),
        table_at + 2 * k + 2 <= bytes.len(),
    ensures
        count == row_count(bytes@, k as int),
{
    let at: usize = table_at + 2 * (k as usize);
    let hi: u16 = bytes[at] as u16;
    let lo: u16 = bytes[at + 1] as u16;
    hi * 0x100 + lo
}

/// The total byte count of the first `n_rows` scanlines.
fn rle_rows_total(bytes: &[u8], table_at: usize, n_rows: u64) -> (total: u64)
    requires
        table_at == planes_at(bytes@),
        table_at + 2 * n_rows <= bytes.len(),
        n_rows <= 0x4_0000_0000,
    ensures
        total == row_bytes_before(bytes@, n_rows as int),
{
    let mut total: u64 = 0;
    let mut k: u64 = 0;
    while k < n_rows
        invariant
            k <= n_rows <= 0x4_0000_0000,
            table_at == planes_at(bytes@),
            table_at + 2 * n_rows <= bytes.len(),
            total == row_bytes_before(bytes@, k as int),
            total <= 0xffff * k,
        decreases n_rows - k,
    {
        let count: u16 = row_count_at(bytes, table_at, k);
        total = total + count as u64;
        k += 1;
    }
    total
}

/// Copies the first `count` raw planes, each `len` bytes, out of `bytes`.
fn read_raw_planes(bytes: &[u8], at: usize, count: usize, len: usize) -> (planes: Vec<Vec<u8>>)
    requires
        at == planes_at(bytes@),
        len == plane_len(bytes@),
        count == planes_read(bytes@),
        at + count * len <= bytes.len(),
    ensures
        planes@.len() == count,
        forall|c: int| 0 <= c < count ==> (#[trigger] planes@[c])@ == raw_plane(bytes@, c),
{
    let mut planes: Vec<Vec<u8>> = Vec::new();
    let mut c: usize = 0;
    let mut offset: usize = at;
    while c < count
        invariant
            at == planes_at(bytes@),
            len == plane_len(bytes@),
            at + count * len <= bytes.len(),
            c <= count,
            offset == at + c * len,
            planes@.len() == c,
            forall|j: int| 0 <= j < c ==> (#[trigger] planes@[j])@ == raw_plane(bytes@, j),
        decreases count - c,
    {
        proof {
            assert((c + 1) * len <= count * len) by (nonlinear_arith)
                requires
                    c + 1 <= count,
                    0 <= len,
            ;
            assert((c + 1) * len == c * len + len) by (nonlinear_arith);
        }
        let mut plane: Vec<u8> = Vec::new();
        let mut i: usize = 0;
        while i < len
            invariant
                offset + len <= bytes.len(),
                i <= len,
                plane@ == bytes@.subrange(offset as int, offset + i),
            decreases len - i,
        {
            plane.push(bytes[offset + i]);
            proof {
                assert(plane@ =~= bytes@.subrange(offset as int, offset + i + 1));
            }
            i += 1;
        }
        planes.push(plane);
        offset = offset + len;
        c += 1;
    }
    planes
}

/// Decodes the `height` scanlines from scanline `first_row` on, whose
/// encoded bytes start at `start`, into one plane.
fn read_rle_plane(
    bytes: &[u8],
    table_at: usize,
    start: usize,
    first_row: u64,
    height: u32,
    width: u32,
) -> (r: (Vec<u8>, usize))
    requires
        table_at == planes_at(bytes@),
        height == lpf_height(bytes@),
        width == lpf_width(bytes@),
        rows_at(bytes@) <= bytes.len(),
        first_row + height <= table_rows(bytes@),
        first_row + height <= 0x4_0000_0000,
        start == row_start(bytes@, first_row as int),
        row_start(bytes@, first_row + height) <= bytes.len(),
        width as int * height as int <= usize::MAX,
    ensures
        r.0@ == rle_rows(bytes@, first_row as int, height as int),
        r.1 == row_start(bytes@, first_row + height),
{
    let count: u64 = pixel_count(width, height);
    let mut plane: Vec<u8> = vec![0u8; count as usize];
    let row_len: usize = width as usize;
    let mut offset: usize = start;
    let mut filled: usize = 0;
    let mut y: u32 = 0;
    while y < height
        invariant
            table_at == planes_at(bytes@),
            height == lpf_height(bytes@),
            width == lpf_width(bytes@),
            row_len == width,
            rows_at(bytes@) <= bytes.len(),
            first_row + height <= table_rows(bytes@),
            first_row + height <= 0x4_0000_0000,
            row_start(bytes@, first_row + height) <= bytes.len(),
            y <= height,
            count == width as int * height as int,
            count <= usize::MAX,
            plane@.len() == count,
            filled == y * width,
            filled <= count,
            offset == row_start(bytes@, first_row + y),
            plane@.subrange(0, filled as int) == rle_rows(bytes@, first_row as int, y as int),
            forall|i: int| filled <= i < count ==> plane@[i] == 0,
        decreases height - y,
    {
        let k: u64 = first_row + y as u64;
        proof {
            lemma_row_bytes_monotone(bytes@, k + 1, first_row + height);
            lemma_row_bytes_monotone(bytes@, k as int, k + 1);
            assert((y + 1) * width <= height * width) by (nonlinear_arith)
                requires
                    y + 1 <= height,
                    0 <= width,
            ;
            assert((y + 1) * width == y * width + width) by (nonlinear_arith);
            assert(height * width == width * height) by (nonlinear_arith);
        }
        let row_bytes: usize = row_count_at(bytes, table_at, k) as usize;
        let ghost before = plane@;
        let ghost stream = bytes@.subrange(offset as int, offset + row_bytes);
        decode_packbits(bytes, offset, row_bytes, &mut plane, filled, row_len);
        proof {
            let out = unpack(stream, width as nat);
            lemma_unpack_len(stream, width as nat);
            assert(rle_row(bytes@, k as int) == zero_padded(out, width as int));
            assert(plane@.subrange(0, filled + width) =~= before.subrange(0, filled as int)
                + zero_padded(out, width as int));
            assert forall|i: int| filled + width <= i < count implies plane@[i] == 0 by {
                assert(plane@[i] == before[i]);
            }
        }
        offset = offset + row_bytes;
        filled = filled + row_len;
        y += 1;
    }
    proof {
        assert(height * width == width * height) by (nonlinear_arith);
        assert(plane@ =~= plane@.subrange(0, filled as int));
    }
    (plane, offset)
}

/// Decodes the first `count` run-length encoded planes.
fn read_rle_planes(
    bytes: &[u8],
    table_at: usize,
    data_at: usize,
    count: usize,
    height: u32,
    width: u32,
) -> (planes: Vec<Vec<u8>>)
    requires
        table_at == planes_at(bytes@),
        data_at == rows_at(bytes@),
        height == lpf_height(bytes@),
        width == lpf_width(bytes@),
        count == planes_read(bytes@),
        rle_fits(bytes@),
        width as int * height as int <= usize::MAX,
    ensures
        planes@.len() == count,
        forall|c: int| 0 <= c < count ==> (#[trigger] planes@[c])@ == rle_plane(bytes@, c),
{
    let mut planes: Vec<Vec<u8>> = Vec::new();
    proof {
        assert(planes_read(bytes@) <= lpf_channels(bytes@));
        assert(count * height <= lpf_channels(bytes@) * lpf_height(bytes@)) by (nonlinear_arith)
            requires
                count <= lpf_channels(bytes@),
                height == lpf_height(bytes@),
                0 <= height,
        ;
        assert(count * height <= 4 * 0xffff_ffff) by (nonlinear_arith)
            requires
                count <= 4,
                0 <= height <= 0xffff_ffff,
        ;
        lemma_row_bytes_monotone(bytes@, 0, 0);
    }
    let mut offset: usize = data_at;
    let mut c: usize = 0;
    while c < count
        invariant
            table_at == planes_at(bytes@),
            height == lpf_height(bytes@),
            width == lpf_width(bytes@),
            count == planes_read(bytes@),
            count <= 4,
            rle_fits(bytes@),
            count * height <= table_rows(bytes@),
            width as int * height as int <= usize::MAX,
            c <= count,
            offset == row_start(bytes@, c * height),
            planes@.len() == c,
            forall|j: int| 0 <= j < c ==> (#[trigger] planes@[j])@ == rle_plane(bytes@, j),
        decreases count - c,
    {
        proof {
            assert((c + 1) * height <= count * height) by (nonlinear_arith)
                requires
                    c + 1 <= count,
                    0 <= height,
            ;
            assert((c + 1) * height == c * height + height) by (nonlinear_arith);
            assert(c * height <= 3 * 0xffff_ffff) by (nonlinear_arith)
                requires
                    c <= 3,
                    0 <= height <= 0xffff_ffff,
            ;
            assert(0 <= (c + 1) * height) by (nonlinear_arith)
                requires
                    0 <= c,
                    0 <= height,
            ;
            lemma_row_bytes_monotone(bytes@, (c + 1) * height, count * height);
        }
        let first_row: u64 = c as u64 * height as u64;
        let (plane, next) = read_rle_plane(bytes, table_at, offset, first_row, height, width);
        planes.push(plane);
        offset = next;
        c += 1;
    }
    planes
}

/// Composites one to four planes of `count` samples each into RGBA bytes.
fn composite_planes(planes: &Vec<Vec<u8>>, four_ink: bool, count: usize) -> (data: Vec<u8>)
    requires
        1 <= planes@.len() <= 4,
        forall|c: int| 0 <= c < planes@.len() ==> (#[trigger] planes@[c])@.len() == count,
        4 * count <= usize::MAX,
    ensures
        data@ == composite(plane_seqs(planes@), four_ink, count as int),
{
    let n: usize = planes.len();
    let first: &Vec<u8> = &planes[0];
    let second: &Vec<u8> = if n >= 2 {
        &planes[1]
    } else {
        first
    };
    let third: &Vec<u8> = if n >= 3 {
        &planes[2]
    } else if four_ink {
        second
    } else {
        first
    };
    let black: &Vec<u8> = if n >= 4 {
        &planes[3]
    } else {
        first
    };
    let ghost seqs = plane_seqs(planes@);
    let mut data: Vec<u8> = Vec::new();
    let mut i: usize = 0;
    while i < count
        invariant
            n == planes@.len(),
            1 <= n <= 4,
            seqs == plane_seqs(planes@),
            first@ == seqs[0],
            second@ == seqs[min_int(1, n - 1)],
            third@ == (if four_ink {
                seqs[min_int(2, n - 1)]
            } else if n >= 3 {
                seqs[2]
            } else {
                seqs[0]
            }),
            black@ == (if n >= 4 {
                seqs[3]
            } else {
                seqs[0]
            }),
            first@.len() == count,
            second@.len() == count,
            third@.len() == count,
            black@.len() == count,
            4 * count <= usize::MAX,
            i <= count,
            data@ == composite(seqs, four_ink, i as int),
        decreases count - i,
    {
        let ghost prev = data@;
        if four_ink {
            let k: u16 = black[i] as u16;
            let c0: u16 = first[i] as u16 + k;
            let c1: u16 = second[i] as u16 + k;
            let c2: u16 = third[i] as u16 + k;
            data.push(
                255 - (if c0 < 255 {
                    c0
                } else {
                    255
                }) as u8,
            );
            data.push(
                255 - (if c1 < 255 {
                    c1
                } else {
                    255
                }) as u8,
            );
            data.push(
                255 - (if c2 < 255 {
                    c2
                } else {
                    255
                }) as u8,
            );
        } else {
            data.push(first[i]);
            data.push(second[i]);
            data.push(third[i]);
        }
        data.push(255);
        proof {
            let next = composite(seqs, four_ink, i + 1);
            assert(data@.len() == next.len());
            assert forall|j: int| 0 <= j < next.len() implies data@[j] == next[j] by {
                if j < 4 * i {
                    assert(data@[j] == prev[j]);
                } else {
                    assert(j / 4 == i);
                    assert(j % 4 == j - 4 * i);
                }
            }
            assert(data@ =~= next);
        }
        i += 1;
    }
    data
}

/// Decodes the flattened composite of a layered picture file into an 8-bit
/// RGBA raster.
///
/// The header, the three skipped sections and the image-data section are
/// checked in file order; the result is the picture that `lpf_decode`
/// describes, or the error that it names.  No partial picture is returned.
#[verifier::rlimit(30)]
pub fn decode_lpf_fallback(bytes: &[u8]) -> (r: Result<Raster, LpfError>)
    ensures
        match r {
            Ok(img) => img.wf() && lpf_decode(bytes@) == Ok::<RasterView, LpfError>(img@),
            Err(e) => lpf_decode(bytes@) == Err::<RasterView, LpfError>(e),
        },
{
    let total: usize = bytes.len();
    if total >= 4 && !(bytes[0] == 0x38 && bytes[1] == 0x42 && bytes[2] == 0x50 && bytes[3]
        == 0x53) {
        return Err(LpfError::BadSignature);
    }
    let mut offset: usize = 4;
    if total >= 6 {
        let version: u16 = read_u16(bytes, &mut offset)?;
        if version != 1 && version != 2 {
            return Err(LpfError::UnsupportedVersion(version));
        }
    }
    if total < 26 {
        return Err(LpfError::TooSmall);
    }
    offset = 12;
    let channels: u16 = read_u16(bytes, &mut offset)?;
    let height: u32 = read_u32(bytes, &mut offset)?;
    let width: u32 = read_u32(bytes, &mut offset)?;
    let depth: u16 = read_u16(bytes, &mut offset)?;
    let color_mode: u16 = read_u16(bytes, &mut offset)?;
    if depth != 8 {
        return Err(LpfError::UnsupportedDepth(depth));
    }
    offset = locate_image_data(bytes)?;
    let compression: u16 = read_u16(bytes, &mut offset)?;
    if compression != 0 && compression != 1 {
        return Err(LpfError::UnsupportedCompression(compression));
    }
    let four_ink: bool = color_mode == 4;
    let cap: u16 = if four_ink {
        4
    } else {
        3
    };
    let count: usize = if channels < cap {
        channels as usize
    } else {
        cap as usize
    };
    let samples: u64 = pixel_count(width, height);
    let room: usize = total - offset;
    let mut data_at: usize = offset;
    if compression == 0 {
        if count > 0 && samples > (room / count) as u64 {
            proof {
                assert(count * samples > room) by (nonlinear_arith)
                    requires
                        samples > room / count,
                        count > 0,
                ;
            }
            return Err(LpfError::Truncated);
        }
        proof {
            assert(count * samples <= room) by (nonlinear_arith)
                requires
                    count > 0 ==> samples <= room / count,
                    count >= 0,
                    samples >= 0,
                    room >= 0,
            ;
        }
    } else {
        proof {
            assert(channels as int * height as int <= 0xffff * 0xffff_ffff) by (nonlinear_arith)
                requires
                    0 <= channels <= 0xffff,
                    0 <= height <= 0xffff_ffff,
            ;
        }
        let table_rows: u64 = channels as u64 * height as u64;
        if table_rows > (room / 2) as u64 {
            return Err(LpfError::Truncated);
        }
        data_at = offset + 2 * (table_rows as usize);
        proof {
            assert(count * height <= channels * height) by (nonlinear_arith)
                requires
                    count <= channels,
                    0 <= height,
            ;
            assert(count * height <= 4 * 0xffff_ffff) by (nonlinear_arith)
                requires
                    0 <= count <= 4,
                    0 <= height <= 0xffff_ffff,
            ;
        }
        let rows_read: u64 = count as u64 * height as u64;
        let encoded: u64 = rle_rows_total(bytes, offset, rows_read);
        if encoded > (total - data_at) as u64 {
            return Err(LpfError::Truncated);
        }
    }
    if channels == 0 {
        return Err(LpfError::NoChannels);
    }
    if samples > (usize::MAX / 4) as u64 {
        return Err(LpfError::BufferConstruction);
    }
    let planes: Vec<Vec<u8>> = if compression == 0 {
        read_raw_planes(bytes, offset, count, samples as usize)
    } else {
        read_rle_planes(bytes, offset, data_at, count, height, width)
    };
    proof {
        assert(plane_seqs(planes@) =~= lpf_planes(bytes@));
        if compression != 0 {
            assert forall|c: int| 0 <= c < count implies (#[trigger] planes@[c])@.len()
                == samples by {
                lemma_rle_rows_len(bytes@, c * height, height as int);
                assert(height * width == width * height) by (nonlinear_arith);
            }
        } else {
            assert forall|c: int| 0 <= c < count implies (#[trigger] planes@[c])@.len()
                == samples by {
                assert((c + 1) * samples == c * samples + samples) by (nonlinear_arith);
                assert(0 <= c * samples && (c + 1) * samples <= count * samples)
                    by (nonlinear_arith)
                    requires
                        0 <= c,
                        c + 1 <= count,
                        0 <= samples,
                ;
            }
        }
    }
    let data: Vec<u8> = composite_planes(&planes, four_ink, samples as usize);
    Ok(Raster { width, height, data })
}

/// What the rich decoder of layered picture files made of a file: the
/// dimensions it read and the RGBA bytes it rendered.
#[derive(Debug, Clone, PartialEq, Eq)]
pub struct RichPicture {
    pub width: u32,
    pub height: u32,
    pub rgba: Vec<u8>,
}

/// Whether the rich decoder came back with a picture whose bytes go with
/// its dimensions.
pub open spec fn rich_usable(rich: Option<RichPicture>) -> bool {
    rich matches Some(found) && found.rgba@.len() >= rgba_len(
        found.width as int,
        found.height as int,
    )
}

/// The picture of a rich outcome that is usable.
pub open spec fn rich_view(rich: Option<RichPicture>) -> RasterView {
    let found = rich->Some_0;
    RasterView {
        width: found.width as nat,
        height: found.height as nat,
        data: found.rgba@.subrange(0, rgba_len(found.width as int, found.height as int)),
    }
}

/// What opening a layered picture file yields: the picture of the rich
/// decoder where it is usable, else what the fallback decoder makes of the
/// same bytes.
pub open spec fn lpf_opened(bytes: Seq<u8>, rich: Option<RichPicture>) -> Result<
    RasterView,
    LpfError,
> {
    if rich_usable(rich) {
        Ok(rich_view(rich))
    } else {
        lpf_decode(bytes)
    }
}

/// Opens a layered picture file.  `rich` is the outcome of the rich
/// decoder on the same bytes: `None` where it failed or gave up.  A failure
/// of the rich decoder is recovered by the fallback decoder; a failure of
/// the fallback decoder is the error of the whole.
pub fn decode_lpf_to_image(bytes: &[u8], rich: Option<RichPicture>) -> (r: Result<Raster, LpfError>)
    ensures
        match r {
            Ok(img) => img.wf() && lpf_opened(bytes@, rich) == Ok::<RasterView, LpfError>(img@),
            Err(e) => lpf_opened(bytes@, rich) == Err::<RasterView, LpfError>(e),
        },
{
    match rich {
        Some(found) => match Raster::from_raw(found.width, found.height, found.rgba) {
            Some(img) => Ok(img),
            None => decode_lpf_fallback(bytes),
        },
        None => decode_lpf_fallback(bytes),
    }
}

/// Whether the buffer is a well-formed file whose image data is raw and in
/// three or more channels of a mode other than the four-ink mode: the tag
/// and a known version, a depth of 8, sections and planes that lie inside
/// the buffer, and a picture whose bytes can be addressed.
pub open spec fn is_raw_rgb_file(b: Seq<u8>) -> bool {
    &&& b.len() >= 26
    &&& has_signature(b)
    &&& (lpf_version(b) == 1 || lpf_version(b) == 2)
    &&& lpf_depth(b) == 8
    &&& sections_fit(b)
    &&& lpf_compression(b) == 0
    &&& lpf_channels(b) >= 3
    &&& !is_four_ink(b)
    &&& raw_fits(b)
    &&& rgba_len(lpf_width(b), lpf_height(b)) <= usize::MAX
}

/// Raw decoding: a well-formed raw file of three or more channels decodes
/// to a picture of its width and height whose pixel `i` takes red, green
/// and blue from byte `i` of the first, second and third plane, which
/// follow one another behind the compression field, and is opaque.
pub proof fn lemma_raw_rgb_pixels(b: Seq<u8>, i: int)
    requires
        is_raw_rgb_file(b),
        0 <= i < plane_len(b),
    ensures
        lpf_decode(b) is Ok,
        lpf_decode(b)->Ok_0.width == lpf_width(b),
        lpf_decode(b)->Ok_0.height == lpf_height(b),
        lpf_decode(b)->Ok_0.data.len() == 4 * plane_len(b),
        lpf_decode(b)->Ok_0.data[4 * i] == b[planes_at(b) + i],
        lpf_decode(b)->Ok_0.data[4 * i + 1] == b[planes_at(b) + plane_len(b) + i],
        lpf_decode(b)->Ok_0.data[4 * i + 2] == b[planes_at(b) + 2 * plane_len(b) + i],
        lpf_decode(b)->Ok_0.data[4 * i + 3] == 255,
{
    let count = plane_len(b);
    let planes = lpf_planes(b);
    assert(planes_read(b) == 3);
    assert(planes.len() == 3);
    assert(0 <= lpf_width(b) && 0 <= lpf_height(b));
    assert(0 <= planes_at(b));
    assert(planes_at(b) + 3 * count <= b.len());
    assert(planes[0] == raw_plane(b, 0));
    assert(planes[1] == raw_plane(b, 1));
    assert(planes[2] == raw_plane(b, 2));
    assert(raw_plane(b, 0)[i] == b[planes_at(b) + i]);
    assert(raw_plane(b, 1)[i] == b[planes_at(b) + count + i]);
    assert(raw_plane(b, 2)[i] == b[planes_at(b) + 2 * count + i]);
    let data = lpf_pixels(b);
    assert(data[4 * i] == composite_channel(planes, false, (4 * i) / 4, (4 * i) % 4));
    assert(data[4 * i + 1] == composite_channel(planes, false, (4 * i + 1) / 4, (4 * i + 1) % 4));
    assert(data[4 * i + 2] == composite_channel(planes, false, (4 * i + 2) / 4, (4 * i + 2) % 4));
    assert(data[4 * i + 3] == composite_channel(planes, false, (4 * i + 3) / 4, (4 * i + 3) % 4));
}

} // verus!
