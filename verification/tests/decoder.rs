use printdiff::error::LpfError;
use printdiff::lpf::decode_lpf_fallback;
use printdiff::packbits::decode_packbits;
use printdiff::reader::{read_u16, read_u32, read_u64};

fn header(version: u16, channels: u16, height: u32, width: u32, depth: u16, mode: u16) -> Vec<u8> {
    let mut file = Vec::new();
    file.extend_from_slice(b"8BPS");
    file.extend_from_slice(&version.to_be_bytes());
    file.extend_from_slice(&[0; 6]);
    file.extend_from_slice(&channels.to_be_bytes());
    file.extend_from_slice(&height.to_be_bytes());
    file.extend_from_slice(&width.to_be_bytes());
    file.extend_from_slice(&depth.to_be_bytes());
    file.extend_from_slice(&mode.to_be_bytes());
    file
}

fn with_sections(mut file: Vec<u8>, large: bool, compression: u16) -> Vec<u8> {
    file.extend_from_slice(&2u32.to_be_bytes());
    file.extend_from_slice(&[9, 9]);
    file.extend_from_slice(&0u32.to_be_bytes());
    if large {
        file.extend_from_slice(&3u64.to_be_bytes());
    } else {
        file.extend_from_slice(&3u32.to_be_bytes());
    }
    file.extend_from_slice(&[7, 7, 7]);
    file.extend_from_slice(&compression.to_be_bytes());
    file
}

#[test]
fn readers_take_big_endian_integers() {
    let bytes = [0x12, 0x34, 0x56, 0x78, 0x9a, 0xbc, 0xde, 0xf0, 0x01];
    let mut at = 0;
    assert_eq!(read_u16(&bytes, &mut at), Ok(0x1234));
    assert_eq!(at, 2);
    assert_eq!(read_u32(&bytes, &mut at), Ok(0x5678_9abc));
    assert_eq!(at, 6);
    assert_eq!(read_u16(&bytes, &mut at), Ok(0xdef0));
    assert_eq!(at, 8);
    let mut at = 0;
    assert_eq!(read_u64(&bytes, &mut at), Ok(0x1234_5678_9abc_def0));
    assert_eq!(at, 8);
}

#[test]
fn readers_fail_on_a_short_window() {
    let bytes = [1, 2, 3, 4, 5, 6, 7];
    let mut at = 6;
    assert_eq!(read_u16(&bytes, &mut at), Err(LpfError::Truncated));
    assert_eq!(at, 6);
    let mut at = 4;
    assert_eq!(read_u32(&bytes, &mut at), Err(LpfError::Truncated));
    assert_eq!(at, 4);
    let mut at = 0;
    assert_eq!(read_u64(&bytes, &mut at), Err(LpfError::Truncated));
    assert_eq!(at, 0);
    let mut at = usize::MAX;
    assert_eq!(read_u16(&bytes, &mut at), Err(LpfError::Truncated));
    assert_eq!(at, usize::MAX);
}

#[test]
fn packbits_decodes_literals_runs_and_skips() {
    // literal of 3, skip, run of 4, literal of 1
    let src = [2, 10, 20, 30, 0x80, 0xfd, 7, 0, 99];
    let mut dst = vec![0u8; 8];
    decode_packbits(&src, 0, src.len(), &mut dst, 0, 8);
    assert_eq!(dst, vec![10, 20, 30, 7, 7, 7, 7, 99]);
}

#[test]
fn packbits_cuts_an_overlong_line() {
    let src = [0xfb, 5, 1, 1, 2];
    let mut dst = vec![9u8; 6];
    decode_packbits(&src, 0, src.len(), &mut dst, 1, 4);
    assert_eq!(dst, vec![9, 5, 5, 5, 5, 9]);
}

#[test]
fn packbits_leaves_the_rest_of_a_short_line() {
    let src = [0xaa, 1, 3, 4, 0xff];
    let mut dst = vec![8u8; 6];
    // the window covers the literal of two bytes and a run header without its byte
    decode_packbits(&src, 1, 4, &mut dst, 2, 4);
    assert_eq!(dst, vec![8, 8, 3, 4, 8, 8]);
}

#[test]
fn packbits_round_trip() {
    // an encoding of 1 2 3 3 3 3 3 3 4
    let enc = [1, 1, 2, 0xfb, 3, 0, 4];
    let mut dst = vec![0u8; 9];
    decode_packbits(&enc, 0, enc.len(), &mut dst, 0, 9);
    assert_eq!(dst, vec![1, 2, 3, 3, 3, 3, 3, 3, 4]);
}

#[test]
fn raw_rgb_pixel_is_decoded() {
    let mut file = header(1, 3, 1, 1, 8, 3);
    file.extend_from_slice(&0u32.to_be_bytes());
    file.extend_from_slice(&0u32.to_be_bytes());
    file.extend_from_slice(&0u32.to_be_bytes());
    file.extend_from_slice(&0u16.to_be_bytes());
    file.extend_from_slice(&[0x11, 0x22, 0x33]);
    let img = decode_lpf_fallback(&file).unwrap();
    assert_eq!((img.width, img.height), (1, 1));
    assert_eq!(img.data, vec![0x11, 0x22, 0x33, 0xff]);
}

#[test]
fn sections_are_skipped_in_both_variants() {
    for large in [false, true] {
        let version = if large { 2 } else { 1 };
        let mut file = with_sections(header(version, 4, 1, 2, 8, 3), large, 0);
        file.extend_from_slice(&[1, 2, 3, 4, 5, 6, 200, 201]);
        let img = decode_lpf_fallback(&file).unwrap();
        assert_eq!((img.width, img.height), (2, 1));
        assert_eq!(img.data, vec![1, 3, 5, 255, 2, 4, 6, 255]);
    }
}

#[test]
fn missing_planes_fall_back_to_the_first() {
    let mut file = with_sections(header(1, 1, 1, 2, 8, 1), false, 0);
    file.extend_from_slice(&[40, 50]);
    assert_eq!(decode_lpf_fallback(&file).unwrap().data, vec![40, 40, 40, 255, 50, 50, 50, 255]);
    let mut file = with_sections(header(1, 2, 1, 1, 8, 3), false, 0);
    file.extend_from_slice(&[40, 50]);
    assert_eq!(decode_lpf_fallback(&file).unwrap().data, vec![40, 50, 40, 255]);
}

#[test]
fn four_ink_pixels_are_converted() {
    let mut file = with_sections(header(1, 4, 1, 2, 8, 4), false, 0);
    // C, M, Y, K planes of two pixels
    file.extend_from_slice(&[10, 200, 20, 0, 30, 255, 5, 100]);
    let img = decode_lpf_fallback(&file).unwrap();
    assert_eq!(img.data, vec![240, 230, 220, 255, 0, 155, 0, 255]);
    // with three planes black is the first plane
    let mut file = with_sections(header(1, 3, 1, 1, 8, 4), false, 0);
    file.extend_from_slice(&[10, 20, 30]);
    assert_eq!(decode_lpf_fallback(&file).unwrap().data, vec![235, 225, 215, 255]);
}

#[test]
fn run_length_encoded_planes_are_decoded() {
    let mut file = with_sections(header(1, 4, 2, 3, 8, 3), false, 1);
    // eight scanline byte counts: four channels of two rows
    for count in [2u16, 4, 2, 1, 3, 2, 5, 5] {
        file.extend_from_slice(&count.to_be_bytes());
    }
    file.extend_from_slice(&[0xfe, 9]); // red row 0: 9 9 9
    file.extend_from_slice(&[2, 1, 2, 3]); // red row 1: 1 2 3
    file.extend_from_slice(&[0xff, 4]); // green row 0: 4 4, then nothing
    file.extend_from_slice(&[0x80]); // green row 1: nothing
    file.extend_from_slice(&[0xfd, 6, 0x80]); // blue row 0: 6 6 6 (cut at three)
    file.extend_from_slice(&[0, 7]); // blue row 1: 7
    file.extend_from_slice(&[0; 10]); // the fourth channel is not decoded
    let img = decode_lpf_fallback(&file).unwrap();
    assert_eq!((img.width, img.height), (3, 2));
    assert_eq!(
        img.data,
        vec![
            9, 4, 6, 255, 9, 4, 6, 255, 9, 0, 6, 255, //
            1, 0, 7, 255, 2, 0, 0, 255, 3, 0, 0, 255,
        ]
    );
}

#[test]
fn every_error_has_its_input() {
    assert_eq!(decode_lpf_fallback(&header(1, 3, 1, 1, 8, 3)[..25]), Err(LpfError::TooSmall));
    let mut file = header(1, 3, 1, 1, 8, 3);
    file[3] = b'X';
    assert_eq!(decode_lpf_fallback(&file), Err(LpfError::BadSignature));
    assert_eq!(decode_lpf_fallback(&header(3, 3, 1, 1, 8, 3)), Err(LpfError::UnsupportedVersion(3)));
    assert_eq!(decode_lpf_fallback(&header(1, 3, 1, 1, 16, 3)), Err(LpfError::UnsupportedDepth(16)));
    assert_eq!(decode_lpf_fallback(&header(1, 3, 1, 1, 8, 3)), Err(LpfError::Truncated));
    let file = with_sections(header(1, 3, 1, 1, 8, 3), false, 2);
    assert_eq!(decode_lpf_fallback(&file), Err(LpfError::UnsupportedCompression(2)));
    let mut file = with_sections(header(1, 3, 1, 1, 8, 3), false, 0);
    file.extend_from_slice(&[1, 2]);
    assert_eq!(decode_lpf_fallback(&file), Err(LpfError::Truncated));
    let file = with_sections(header(1, 0, 1, 1, 8, 3), false, 0);
    assert_eq!(decode_lpf_fallback(&file), Err(LpfError::NoChannels));
}

#[test]
fn truncation_is_found_in_every_section() {
    let mut full = with_sections(header(2, 3, 1, 1, 8, 3), true, 1);
    for count in [1u16, 1, 1] {
        full.extend_from_slice(&count.to_be_bytes());
    }
    full.extend_from_slice(&[0x80, 0x80, 0x80]);
    assert!(decode_lpf_fallback(&full).is_ok());
    for len in 26..full.len() {
        assert_eq!(decode_lpf_fallback(&full[..len]), Err(LpfError::Truncated), "cut at {}", len);
    }
}

#[test]
fn a_section_length_past_the_end_is_a_truncation() {
    let mut file = header(2, 3, 1, 1, 8, 3);
    file.extend_from_slice(&0u32.to_be_bytes());
    file.extend_from_slice(&0u32.to_be_bytes());
    file.extend_from_slice(&u64::MAX.to_be_bytes());
    file.extend_from_slice(&[0; 16]);
    assert_eq!(decode_lpf_fallback(&file), Err(LpfError::Truncated));
}

#[test]
fn an_empty_picture_is_decoded() {
    let file = with_sections(header(1, 3, 0, 5, 8, 3), false, 0);
    let img = decode_lpf_fallback(&file).unwrap();
    assert_eq!((img.width, img.height), (5, 0));
    assert!(img.data.is_empty());
}

#[test]
fn huge_dimensions_do_not_abort() {
    let file = with_sections(header(1, 3, u32::MAX, u32::MAX, 8, 3), false, 0);
    assert_eq!(decode_lpf_fallback(&file), Err(LpfError::Truncated));
    let file = with_sections(header(1, 3, u32::MAX, u32::MAX, 8, 3), false, 1);
    assert_eq!(decode_lpf_fallback(&file), Err(LpfError::Truncated));
}

#[test]
fn the_tag_is_judged_before_the_length() {
    // whatever does not start with the tag is no layered picture file
    assert_eq!(decode_lpf_fallback(&[0; 25]), Err(LpfError::BadSignature));
    assert_eq!(decode_lpf_fallback(b"8BPX"), Err(LpfError::BadSignature));
    assert_eq!(decode_lpf_fallback(b"GIF89a"), Err(LpfError::BadSignature));
    assert_eq!(decode_lpf_fallback(&[0; 26]), Err(LpfError::BadSignature));
    // then the version, as soon as it is there
    assert_eq!(decode_lpf_fallback(b"8BPS\x00\x03"), Err(LpfError::UnsupportedVersion(3)));
    assert_eq!(
        decode_lpf_fallback(&header(0x0102, 3, 1, 1, 8, 3)[..20]),
        Err(LpfError::UnsupportedVersion(0x0102))
    );
    // a file that ends before its header does is too small
    assert_eq!(decode_lpf_fallback(b""), Err(LpfError::TooSmall));
    assert_eq!(decode_lpf_fallback(b"8BP"), Err(LpfError::TooSmall));
    assert_eq!(decode_lpf_fallback(b"8BPS"), Err(LpfError::TooSmall));
    assert_eq!(decode_lpf_fallback(b"8BPS\x00"), Err(LpfError::TooSmall));
    assert_eq!(decode_lpf_fallback(b"8BPS\x00\x02"), Err(LpfError::TooSmall));
    // the depth is part of the header: a bad depth in a cut header is not judged yet
    assert_eq!(decode_lpf_fallback(&header(1, 3, 1, 1, 16, 3)[..24]), Err(LpfError::TooSmall));
}
