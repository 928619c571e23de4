use printdiff::codec::{
    data_url_of_file, data_url_of_text, data_url_to_bytes, decode_raster, drop_alpha, encode_png,
    encode_preview_data_url, encode_rgba_to_data_url, encode_to_data_url, file_extension,
    raster_from_decoded, resize_exact, strip_data_url_prefix, Filter, ImageKind,
};
use printdiff::error::{EngineError, LpfError};
use printdiff::raster::{CropBounds, Raster};

fn checker() -> Raster {
    // 2 by 2: red, green / blue, white
    Raster {
        width: 2,
        height: 2,
        data: vec![255, 0, 0, 255, 0, 255, 0, 255, 0, 0, 255, 255, 255, 255, 255, 255],
    }
}

fn png_of(img: &Raster) -> Vec<u8> {
    encode_png(img).unwrap()
}

#[test]
fn png_files_are_decoded() {
    let img = checker();
    let file = png_of(&img);
    assert_eq!(&file[..8], &[0x89, b'P', b'N', b'G', 0x0d, 0x0a, 0x1a, 0x0a]);
    assert_eq!(decode_raster(&file, "check.png"), Ok(img.clone()));
    assert_eq!(decode_raster(&file, "dir/CHECK.PNG"), Ok(img));
}

#[test]
fn the_extension_decides_the_format() {
    let file = png_of(&checker());
    assert_eq!(decode_raster(&file, "check.jpg"), Err(EngineError::Decode));
    assert_eq!(decode_raster(&file, "check"), Err(EngineError::Decode));
    assert_eq!(decode_raster(&file, "check.xyz"), Err(EngineError::Decode));
    assert_eq!(decode_raster(b"not a picture", "check.png"), Err(EngineError::Decode));
}

#[test]
fn tiff_and_jpeg_files_are_decoded() {
    let img = checker();
    let rgba = image::RgbaImage::from_raw(2, 2, img.data.clone()).unwrap();
    let mut tiff = std::io::Cursor::new(Vec::new());
    rgba.write_to(&mut tiff, image::ImageFormat::Tiff).unwrap();
    assert_eq!(decode_raster(tiff.get_ref(), "check.tif"), Ok(img));
    let grey = image::RgbImage::from_raw(8, 8, vec![100; 8 * 8 * 3]).unwrap();
    let mut jpeg = std::io::Cursor::new(Vec::new());
    grey.write_to(&mut jpeg, image::ImageFormat::Jpeg).unwrap();
    let decoded = decode_raster(jpeg.get_ref(), "grey.jpeg").unwrap();
    assert_eq!((decoded.width, decoded.height), (8, 8));
    assert_eq!(decoded.data.len(), 8 * 8 * 4);
    for px in decoded.data.chunks(4) {
        assert!((98..=102).contains(&px[0]) && px[3] == 255);
    }
}

#[test]
fn decoded_bytes_must_go_with_the_dimensions() {
    assert_eq!(raster_from_decoded(None), Err(EngineError::Decode));
    assert_eq!(
        raster_from_decoded(Some((2, 2, vec![0; 15]))),
        Err(EngineError::BufferConstruction)
    );
    let img = raster_from_decoded(Some((1, 2, vec![1, 2, 3, 4, 5, 6, 7, 8, 9]))).unwrap();
    assert_eq!(img, Raster { width: 1, height: 2, data: vec![1, 2, 3, 4, 5, 6, 7, 8] });
    assert_eq!(Raster::from_raw(u32::MAX, u32::MAX, vec![0; 16]), None);
}

#[test]
fn resizing_to_the_same_size_changes_nothing() {
    let img = checker();
    assert_eq!(resize_exact(&img, 2, 2, Filter::Triangle), Ok(img.clone()));
    assert_eq!(resize_exact(&img, 2, 2, Filter::Nearest), Ok(img));
}

#[test]
fn nearest_neighbour_repeats_pixels() {
    let big = resize_exact(&checker(), 4, 4, Filter::Nearest).unwrap();
    assert_eq!((big.width, big.height), (4, 4));
    let red = [255, 0, 0, 255];
    let green = [0, 255, 0, 255];
    let blue = [0, 0, 255, 255];
    let white = [255, 255, 255, 255];
    let rows = [[red, red, green, green], [red, red, green, green], [blue, blue, white, white], [
        blue, blue, white, white,
    ]];
    let expected: Vec<u8> = rows.iter().flatten().flatten().copied().collect();
    assert_eq!(big.data, expected);
}

#[test]
fn the_triangle_filter_blends_pixels() {
    let img = Raster { width: 2, height: 1, data: vec![0, 0, 0, 255, 200, 100, 50, 255] };
    let small = resize_exact(&img, 1, 1, Filter::Triangle).unwrap();
    assert_eq!(small, Raster { width: 1, height: 1, data: vec![100, 50, 25, 255] });
    let wide = resize_exact(&img, 400, 3, Filter::Triangle).unwrap();
    assert_eq!(wide.data.len(), 400 * 3 * 4);
}

#[test]
fn absurd_sizes_are_refused() {
    let img = checker();
    assert_eq!(
        resize_exact(&img, u32::MAX, u32::MAX, Filter::Nearest),
        Err(EngineError::BufferConstruction)
    );
    let empty = resize_exact(&img, 0, 7, Filter::Nearest).unwrap();
    assert_eq!(empty, Raster { width: 0, height: 7, data: vec![] });
}

#[test]
fn crops_take_the_rectangle() {
    let img = Raster { width: 3, height: 2, data: (0..24).collect() };
    let bounds = CropBounds { left: 1, top: 0, right: 3, bottom: 2 };
    assert_eq!(
        img.crop(&bounds),
        Some(Raster {
            width: 2,
            height: 2,
            data: vec![4, 5, 6, 7, 8, 9, 10, 11, 16, 17, 18, 19, 20, 21, 22, 23],
        })
    );
    let all = CropBounds { left: 0, top: 0, right: 3, bottom: 2 };
    assert_eq!(img.crop(&all), Some(img.clone()));
    for bad in [
        CropBounds { left: 1, top: 0, right: 1, bottom: 2 },
        CropBounds { left: 2, top: 0, right: 1, bottom: 2 },
        CropBounds { left: 0, top: 0, right: 4, bottom: 2 },
        CropBounds { left: 0, top: 1, right: 3, bottom: 3 },
        CropBounds { left: 0, top: 2, right: 3, bottom: 2 },
    ] {
        assert_eq!(img.crop(&bad), None);
    }
}

#[test]
fn data_urls_carry_base64() {
    assert_eq!(data_url_of_text(ImageKind::Png, "QQ=="), "data:image/png;base64,QQ==");
    assert_eq!(data_url_of_text(ImageKind::Jpeg, ""), "data:image/jpeg;base64,");
    assert_eq!(
        data_url_of_file(ImageKind::Png, b"hello"),
        Ok("data:image/png;base64,aGVsbG8=".to_string())
    );
    assert_eq!(
        data_url_of_file(ImageKind::Jpeg, &[0xff, 0xd8, 0xff]),
        Ok("data:image/jpeg;base64,/9j/".to_string())
    );
}

#[test]
fn data_urls_are_decoded() {
    assert_eq!(strip_data_url_prefix("data:image/png;base64,aGVsbG8="), "aGVsbG8=");
    assert_eq!(strip_data_url_prefix("aGVsbG8="), "aGVsbG8=");
    assert_eq!(strip_data_url_prefix("data:image/png;base64,"), "");
    assert_eq!(strip_data_url_prefix("data:image/png;base64"), "data:image/png;base64");
    assert_eq!(strip_data_url_prefix("data:image/jpeg;base64,QQ=="), "data:image/jpeg;base64,QQ==");
    assert_eq!(strip_data_url_prefix("dätä:image/png;base64,QQ=="), "dätä:image/png;base64,QQ==");
    assert_eq!(data_url_to_bytes("data:image/png;base64,aGVsbG8="), Ok(b"hello".to_vec()));
    assert_eq!(data_url_to_bytes("aGVsbG8="), Ok(b"hello".to_vec()));
    assert_eq!(data_url_to_bytes(""), Ok(vec![]));
    assert_eq!(data_url_to_bytes("data:image/png;base64,%%%"), Err(EngineError::Base64));
    assert_eq!(data_url_to_bytes("data:image/jpeg;base64,QQ=="), Err(EngineError::Base64));
}

#[test]
fn rasters_survive_a_png_data_url() {
    let img = checker();
    let url = encode_to_data_url(&img).unwrap();
    assert!(url.starts_with("data:image/png;base64,iVBORw0KGgo"));
    let file = data_url_to_bytes(&url).unwrap();
    assert_eq!(file, png_of(&img));
    assert_eq!(decode_raster(&file, "back.png"), Ok(img.clone()));
    assert_eq!(encode_rgba_to_data_url(&img.data, 2, 2), Ok(url));
}

#[test]
fn buffers_are_checked_before_encoding() {
    let img = checker();
    assert_eq!(encode_rgba_to_data_url(&img.data[..15], 2, 2), Err(EngineError::BufferConstruction));
    let mut long = img.data.clone();
    long.extend_from_slice(&[1, 2, 3]);
    assert_eq!(encode_rgba_to_data_url(&long, 2, 2), encode_to_data_url(&img));
    // a picture without pixels cannot be a PNG file
    assert_eq!(encode_rgba_to_data_url(&[], 0, 0), Err(EngineError::Encode));
    let empty = Raster { width: 0, height: 3, data: vec![] };
    assert_eq!(encode_to_data_url(&empty), Err(EngineError::Encode));
    assert_eq!(encode_preview_data_url(&empty), Err(EngineError::Encode));
}

#[test]
fn previews_are_jpeg_without_alpha() {
    let img = Raster { width: 2, height: 1, data: vec![1, 2, 3, 4, 5, 6, 7, 8] };
    assert_eq!(drop_alpha(&img), vec![1, 2, 3, 5, 6, 7]);
    let grey = Raster { width: 16, height: 8, data: [90, 90, 90, 17].repeat(16 * 8) };
    let url = encode_preview_data_url(&grey).unwrap();
    assert!(url.starts_with("data:image/jpeg;base64,/9j/"));
    let payload = url.strip_prefix("data:image/jpeg;base64,").unwrap();
    let file = data_url_to_bytes(payload).unwrap();
    let decoded = decode_raster(&file, "preview.jpg").unwrap();
    assert_eq!((decoded.width, decoded.height), (16, 8));
    for px in decoded.data.chunks(4) {
        assert!((88..=92).contains(&px[0]) && px[3] == 255);
    }
    // the quality is 85, not the encoder's own choice
    let rgb = image::RgbImage::from_raw(16, 8, [90, 90, 90].repeat(16 * 8)).unwrap();
    let mut own = Vec::new();
    image::codecs::jpeg::JpegEncoder::new_with_quality(&mut own, 85).encode_image(&rgb).unwrap();
    assert_eq!(file, own);
}

#[test]
fn errors_have_messages() {
    assert_eq!(LpfError::TooSmall.message(), "LPF file too small");
    assert_eq!(LpfError::BadSignature.message(), "Not an LPF file");
    assert_eq!(LpfError::UnsupportedVersion(3).message(), "Unsupported LPF version: 3");
    assert_eq!(LpfError::UnsupportedDepth(16).message(), "Unsupported LPF bit depth: 16");
    assert_eq!(LpfError::Truncated.message(), "LPF data truncated");
    assert_eq!(
        LpfError::UnsupportedCompression(65535).message(),
        "Unsupported LPF compression: 65535"
    );
    assert_eq!(LpfError::NoChannels.message(), "LPF file has no channels");
    assert_eq!(EngineError::Format(LpfError::UnsupportedVersion(0)).message(), "Unsupported LPF version: 0");
    assert_eq!(EngineError::Decode.message(), "Failed to decode image");
    assert_eq!(EngineError::BufferConstruction.message(), "Failed to create image buffer");
    assert_eq!(EngineError::Encode.message(), "Failed to encode image");
    assert_eq!(EngineError::Base64.message(), "Failed to decode base64");
    assert_eq!(EngineError::InvalidCrop.message(), "Invalid crop bounds");
}

#[test]
fn the_triangle_filter_is_kept_to_its_limit() {
    let line = Raster { width: 2, height: 1, data: vec![0, 0, 0, 255, 200, 100, 50, 255] };
    // beyond 2^20 pixels on a side the triangle filter is not asked
    assert_eq!(
        resize_exact(&line, 0x10_0001, 1, Filter::Triangle),
        Err(EngineError::BufferConstruction)
    );
    assert_eq!(
        resize_exact(&line, 1, 0x10_0001, Filter::Triangle),
        Err(EngineError::BufferConstruction)
    );
    let tall = Raster { width: 1, height: 0x10_0001, data: vec![7; 4 * 0x10_0001] };
    assert_eq!(resize_exact(&tall, 1, 1, Filter::Triangle), Err(EngineError::BufferConstruction));
    // the nearest neighbour has no such limit
    let wide = resize_exact(&line, 0x10_0001, 1, Filter::Nearest).unwrap();
    assert_eq!((wide.width, wide.height, wide.data.len()), (0x10_0001, 1, 4 * 0x10_0001));
    assert_eq!(&wide.data[..4], &[0, 0, 0, 255]);
    assert_eq!(&wide.data[wide.data.len() - 4..], &[200, 100, 50, 255]);
    assert_eq!(
        resize_exact(&tall, 1, 1, Filter::Nearest),
        Ok(Raster { width: 1, height: 1, data: vec![7; 4] })
    );
    // at the limit the triangle filter works
    let wide = resize_exact(&line, 0x10_0000, 1, Filter::Triangle).unwrap();
    assert_eq!((wide.width, wide.height, wide.data.len()), (0x10_0000, 1, 4 * 0x10_0000));
    assert_eq!(&wide.data[..4], &[0, 0, 0, 255]);
    assert_eq!(&wide.data[wide.data.len() - 4..], &[200, 100, 50, 255]);
}

#[test]
fn the_extension_follows_the_last_dot_of_the_name() {
    assert_eq!(file_extension("a.png"), Some("png"));
    assert_eq!(file_extension("/pages/proof 01.final.TIF"), Some("TIF"));
    assert_eq!(file_extension("a.tar.gz"), Some("gz"));
    assert_eq!(file_extension("C:\\pages\\a.jpeg"), Some("jpeg"));
    assert_eq!(file_extension("é.tif"), Some("tif"));
    assert_eq!(file_extension("dir/.hidden.png"), Some("png"));
    assert_eq!(file_extension("a."), Some(""));
    // no dot in the name, or only the one in front
    assert_eq!(file_extension(""), None);
    assert_eq!(file_extension("png"), None);
    assert_eq!(file_extension(".png"), None);
    assert_eq!(file_extension("dir/.png"), None);
    assert_eq!(file_extension("dir\\.png"), None);
    assert_eq!(file_extension("dir.x/file"), None);
    assert_eq!(file_extension("a.png/"), None);
    assert_eq!(file_extension("a.png\\"), None);
    let file = png_of(&checker());
    assert_eq!(decode_raster(&file, ".png"), Err(EngineError::Decode));
    assert_eq!(decode_raster(&file, "a.png/"), Err(EngineError::Decode));
    assert_eq!(decode_raster(&file, "a.b.Png"), Ok(checker()));
}
