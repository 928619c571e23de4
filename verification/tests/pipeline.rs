use printdiff::cluster::DiffMarker;
use printdiff::codec::{data_url_to_bytes, decode_raster, encode_png, encode_to_data_url};
use printdiff::error::{EngineError, LpfError};
use printdiff::lpf::{decode_lpf_to_image, RichPicture};
use printdiff::pipeline::{
    check_diff_heatmap, check_diff_simple, check_heatmap_aligned, check_simple_aligned,
    compute_diff_heatmap, compute_diff_simple, decode_image_file, diff_probability,
    has_lpf_extension, normalize_pair, parse_lpf, parse_lpf_preview, preview_raster, SourceFile,
};
use printdiff::raster::{CropBounds, Raster};
use printdiff::viewer::{prepare_image, resize_image_to_png};

fn solid(width: u32, height: u32, rgba: [u8; 4]) -> Raster {
    Raster { width, height, data: rgba.repeat(width as usize * height as usize) }
}

fn fill(img: &mut Raster, left: u32, top: u32, size: u32, rgba: [u8; 4]) {
    for y in top..top + size {
        for x in left..left + size {
            let at = 4 * (y as usize * img.width as usize + x as usize);
            img.data[at..at + 4].copy_from_slice(&rgba);
        }
    }
}

fn png_file(path: &str, img: &Raster) -> SourceFile {
    SourceFile { path: path.to_string(), bytes: encode_png(img).unwrap(), rich: None }
}

/// A raw RGB layered picture file of the given raster.
fn lpf_bytes(img: &Raster) -> Vec<u8> {
    let mut file = Vec::new();
    file.extend_from_slice(b"8BPS");
    file.extend_from_slice(&1u16.to_be_bytes());
    file.extend_from_slice(&[0; 6]);
    file.extend_from_slice(&3u16.to_be_bytes());
    file.extend_from_slice(&img.height.to_be_bytes());
    file.extend_from_slice(&img.width.to_be_bytes());
    file.extend_from_slice(&8u16.to_be_bytes());
    file.extend_from_slice(&3u16.to_be_bytes());
    file.extend_from_slice(&[0; 12]);
    file.extend_from_slice(&0u16.to_be_bytes());
    for c in 0..3 {
        file.extend(img.data.chunks(4).map(|px| px[c]));
    }
    file
}

fn lpf_file(path: &str, img: &Raster) -> SourceFile {
    SourceFile { path: path.to_string(), bytes: lpf_bytes(img), rich: None }
}

#[test]
fn the_extension_routes_layered_pictures() {
    assert!(has_lpf_extension("a.lpf"));
    assert!(has_lpf_extension("dir/page 1.LPF"));
    assert!(has_lpf_extension("x.LpF"));
    assert!(has_lpf_extension(".lpf"));
    assert!(!has_lpf_extension("lpf"));
    assert!(!has_lpf_extension("a.lpf.png"));
    assert!(!has_lpf_extension("a.lp"));
    assert!(!has_lpf_extension("alpf"));
    assert!(!has_lpf_extension(""));
    assert!(!has_lpf_extension("é.pfl"));
}

#[test]
fn files_are_opened_by_their_name() {
    let img = solid(2, 1, [9, 8, 7, 255]);
    assert_eq!(decode_image_file(lpf_file("a.LPF", &img)), Ok(img.clone()));
    assert_eq!(decode_image_file(png_file("a.png", &img)), Ok(img.clone()));
    // a layered picture under another name goes to the raster decoder
    assert_eq!(decode_image_file(lpf_file("a.png", &img)), Err(EngineError::Decode));
    let broken = SourceFile { path: "a.lpf".to_string(), bytes: vec![1, 2, 3], rich: None };
    assert_eq!(decode_image_file(broken), Err(EngineError::Format(LpfError::TooSmall)));
}

#[test]
fn the_rich_picture_wins_where_it_is_usable() {
    let img = solid(1, 1, [1, 1, 1, 255]);
    let bytes = lpf_bytes(&img);
    let rich = RichPicture { width: 1, height: 1, rgba: vec![50, 60, 70, 80] };
    assert_eq!(
        decode_lpf_to_image(&bytes, Some(rich)),
        Ok(Raster { width: 1, height: 1, data: vec![50, 60, 70, 80] })
    );
    // what does not go with its dimensions is dropped for the fallback
    let short = RichPicture { width: 2, height: 1, rgba: vec![50, 60, 70, 80] };
    assert_eq!(decode_lpf_to_image(&bytes, Some(short)), Ok(img.clone()));
    assert_eq!(decode_lpf_to_image(&bytes, None), Ok(img));
    // a failure of both is the failure of the fallback
    assert_eq!(decode_lpf_to_image(&[0; 30], None), Err(LpfError::BadSignature));
    let usable = RichPicture { width: 1, height: 1, rgba: vec![1, 2, 3, 4, 5] };
    assert_eq!(
        decode_lpf_to_image(&[0; 30], Some(usable)),
        Ok(Raster { width: 1, height: 1, data: vec![1, 2, 3, 4] })
    );
}

#[test]
fn a_raw_layered_pixel_is_parsed() {
    let mut file = Vec::new();
    file.extend_from_slice(b"8BPS");
    file.extend_from_slice(&[0, 1, 0, 0, 0, 0, 0, 0]);
    file.extend_from_slice(&[0, 3, 0, 0, 0, 1, 0, 0, 0, 1, 0, 8, 0, 3]);
    file.extend_from_slice(&[0; 12]);
    file.extend_from_slice(&[0, 0, 0x11, 0x22, 0x33]);
    let parsed = parse_lpf(&file, None).unwrap();
    assert_eq!((parsed.width, parsed.height), (1, 1));
    let png = data_url_to_bytes(&parsed.data_url).unwrap();
    assert_eq!(
        decode_raster(&png, "parsed.png"),
        Ok(Raster { width: 1, height: 1, data: vec![0x11, 0x22, 0x33, 0xff] })
    );
}

#[test]
fn parsing_falls_back_where_the_rich_picture_cannot_be_encoded() {
    let img = solid(1, 1, [4, 5, 6, 255]);
    let bytes = lpf_bytes(&img);
    let expected = encode_to_data_url(&img).unwrap();
    // an empty rich picture is usable but no PNG file can hold it
    let empty = RichPicture { width: 0, height: 0, rgba: vec![] };
    assert_eq!(parse_lpf(&bytes, Some(empty)).unwrap().data_url, expected);
    let rich = RichPicture { width: 1, height: 1, rgba: vec![9, 9, 9, 255] };
    let parsed = parse_lpf(&bytes, Some(rich)).unwrap();
    assert_eq!(parsed.data_url, encode_to_data_url(&solid(1, 1, [9, 9, 9, 255])).unwrap());
    assert_eq!(parse_lpf(&[], None), Err(EngineError::Format(LpfError::TooSmall)));
}

#[test]
fn previews_are_no_wider_than_asked() {
    let img = solid(40, 30, [10, 20, 30, 255]);
    let small = preview_raster(img.clone(), 16).unwrap();
    assert_eq!((small.width, small.height), (16, 12));
    assert_eq!(preview_raster(solid(10, 7, [0, 0, 0, 255]), 3).unwrap().height, 2);
    assert_eq!(preview_raster(img.clone(), 40), Ok(img.clone()));
    assert_eq!(preview_raster(img.clone(), 1000), Ok(img.clone()));
    let parsed = parse_lpf_preview(&lpf_bytes(&img), None, 16).unwrap();
    assert_eq!((parsed.width, parsed.height), (16, 12));
    assert!(parsed.data_url.starts_with("data:image/jpeg;base64,/9j/"));
    assert_eq!(
        parse_lpf_preview(&[1], None, 16),
        Err(EngineError::Format(LpfError::TooSmall))
    );
}

#[test]
fn pairs_are_brought_to_the_larger_size() {
    let a = solid(4, 2, [10, 10, 10, 255]);
    let b = solid(2, 6, [20, 20, 20, 255]);
    let (first, second) = normalize_pair(&a, &b).unwrap();
    assert_eq!((first.width, first.height), (4, 6));
    assert_eq!((second.width, second.height), (4, 6));
    assert_eq!(first, solid(4, 6, [10, 10, 10, 255]));
    assert_eq!(second, solid(4, 6, [20, 20, 20, 255]));
    let (same_a, same_b) = normalize_pair(&a, &a).unwrap();
    assert_eq!((same_a, same_b), (a.clone(), a));
}

#[test]
fn identical_files_do_not_differ() {
    let img = solid(2, 2, [255, 0, 0, 255]);
    for threshold in [0, 10, 255] {
        let found =
            check_diff_simple(png_file("a.png", &img), png_file("b.png", &img), threshold).unwrap();
        assert!(!found.has_diff);
        assert_eq!(found.diff_count, 0);
        assert!(found.markers.is_empty());
        assert_eq!((found.image_width, found.image_height), (2, 2));
    }
    let full = compute_diff_simple(png_file("a.png", &img), lpf_file("b.lpf", &img), 0).unwrap();
    assert!(!full.has_diff);
    assert_eq!(full.src_a, full.src_b);
    let diff = data_url_to_bytes(&full.diff_src).unwrap();
    assert_eq!(decode_raster(&diff, "diff.png"), Ok(solid(2, 2, [0, 0, 0, 255])));
}

#[test]
fn a_changed_pixel_is_reported_with_images() {
    let a = solid(2, 2, [255, 255, 255, 255]);
    let mut b = a.clone();
    fill(&mut b, 1, 0, 1, [0, 0, 0, 255]);
    let full = compute_diff_simple(png_file("a.png", &a), png_file("b.png", &b), 10).unwrap();
    assert!(full.has_diff);
    assert_eq!(full.diff_count, 1);
    assert_eq!(
        full.markers,
        vec![DiffMarker { twice_x: 2, twice_y: 0, twice_radius: 600, count: 1 }]
    );
    assert_eq!(full.src_a, encode_to_data_url(&a).unwrap());
    assert_eq!(full.src_b, encode_to_data_url(&b).unwrap());
    let mut expected = solid(2, 2, [0, 0, 0, 255]);
    fill(&mut expected, 1, 0, 1, [255, 0, 0, 255]);
    assert_eq!(full.diff_src, encode_to_data_url(&expected).unwrap());
    let check = check_diff_simple(png_file("a.png", &a), png_file("b.png", &b), 10).unwrap();
    assert_eq!(check.diff_count, 1);
    assert_eq!(check.markers, full.markers);
}

#[test]
fn the_first_failure_is_reported() {
    let img = solid(2, 2, [0, 0, 0, 255]);
    let broken_a = SourceFile { path: "a.png".to_string(), bytes: vec![1], rich: None };
    let broken_b = SourceFile { path: "b.lpf".to_string(), bytes: vec![1], rich: None };
    assert_eq!(
        check_diff_simple(broken_a.clone(), broken_b.clone(), 0),
        Err(EngineError::Decode)
    );
    assert_eq!(
        check_diff_simple(png_file("a.png", &img), broken_b.clone(), 0),
        Err(EngineError::Format(LpfError::TooSmall))
    );
    assert_eq!(
        compute_diff_simple(broken_b, broken_a, 0).map(|_| ()),
        Err(EngineError::Format(LpfError::TooSmall))
    );
    // two pictures without pixels compare, but cannot be encoded
    let empty = solid(0, 0, [0, 0, 0, 0]);
    let found = check_diff_simple(lpf_file("a.lpf", &empty), lpf_file("b.lpf", &empty), 0).unwrap();
    assert_eq!((found.diff_count, found.image_width), (0, 0));
    assert_eq!(
        compute_diff_simple(lpf_file("a.lpf", &empty), lpf_file("b.lpf", &empty), 0).map(|_| ()),
        Err(EngineError::Encode)
    );
}

#[test]
fn the_probability_is_zero_or_at_least_seventy() {
    assert_eq!(diff_probability(0, 1000, 1000), 0);
    assert_eq!(diff_probability(0, 0, 0), 0);
    // 1 / 1000000 * 50000 = 0.05: 70.05 rounds to 70.1
    assert_eq!(diff_probability(1, 1000, 1000), 701);
    // 2500 / 1000000 * 50000 = 125, capped at 30
    assert_eq!(diff_probability(2500, 1000, 1000), 1000);
    // 3 / 20000 * 50000 = 7.5: 77.5
    assert_eq!(diff_probability(3, 200, 100), 775);
    // 1 / 3000000 * 50000 = 0.0166..: 70.0
    assert_eq!(diff_probability(1, 3000, 1000), 700);
    // 599 / 1000000 * 50000 = 29.95: 99.95 rounds to 100.0 (halves go up)
    assert_eq!(diff_probability(599, 1000, 1000), 1000);
    assert_eq!(diff_probability(598, 1000, 1000), 999);
    assert_eq!(diff_probability(600, 1000, 1000), 1000);
    assert_eq!(diff_probability(usize::MAX, u32::MAX, u32::MAX), 1000);
    for high in 1..200 {
        let p = diff_probability(high, 640, 480);
        assert!((700..=1000).contains(&p));
    }
}

#[test]
fn a_bright_square_is_one_hot_cluster() {
    let target = solid(1000, 1000, [0, 0, 0, 255]);
    let mut processed = target.clone();
    fill(&mut processed, 300, 400, 50, [255, 255, 255, 255]);
    let (found, heatmap) = check_heatmap_aligned(&processed, &target, 10);
    assert!(found.has_diff);
    assert!(found.high_density_count > 0);
    assert!(found.diff_probability_tenths >= 700);
    assert_eq!(found.markers.len(), 1);
    assert_eq!((found.image_width, found.image_height), (1000, 1000));
    assert_eq!(heatmap.len(), 4 * 1000 * 1000);
    // inside the square every window further than 15 pixels from its edge
    // is full: density 1, the greatest, so the pixel is hot
    let centre = 4 * (425 * 1000 + 325);
    assert_eq!(&heatmap[centre..centre + 4], &[255, 0, 0, 255]);
    assert_eq!(&heatmap[0..4], &[0, 0, 0, 255]);
    assert_eq!(found.markers[0].count, found.high_density_count);
}

#[test]
fn the_heatmap_pipeline_crops_and_resizes() {
    // the layered picture holds the raster in its lower right quarter
    let target = solid(60, 60, [0, 0, 0, 255]);
    let mut full = solid(120, 120, [90, 90, 90, 255]);
    fill(&mut full, 60, 60, 60, [0, 0, 0, 255]);
    fill(&mut full, 70, 80, 30, [255, 255, 255, 255]);
    let bounds = CropBounds { left: 60, top: 60, right: 120, bottom: 120 };
    let lpf = lpf_file("page.lpf", &full);
    let flat = png_file("page.tif.png", &target);
    let check = check_diff_heatmap(lpf.clone(), flat.clone(), bounds, 10).unwrap();
    assert!(check.has_diff);
    assert_eq!((check.image_width, check.image_height), (60, 60));
    assert_eq!(check.markers.len(), 1);
    let full_result = compute_diff_heatmap(lpf.clone(), flat.clone(), bounds, 10).unwrap();
    assert_eq!(full_result.high_density_count, check.high_density_count);
    assert_eq!(full_result.diff_probability_tenths, check.diff_probability_tenths);
    assert_eq!(full_result.markers, check.markers);
    assert_eq!(full_result.src_a, encode_to_data_url(&full).unwrap());
    assert_eq!(full_result.src_b, encode_to_data_url(&target).unwrap());
    let mut processed = target.clone();
    fill(&mut processed, 10, 20, 30, [255, 255, 255, 255]);
    assert_eq!(full_result.processed_a, encode_to_data_url(&processed).unwrap());
    let (aligned, heatmap) = check_heatmap_aligned(&processed, &target, 10);
    assert_eq!(aligned, check);
    let shown = data_url_to_bytes(&full_result.diff_src).unwrap();
    assert_eq!(decode_raster(&shown, "heat.png").unwrap().data, heatmap);
    // a crop twice the size of the raster is scaled down by the nearest neighbour
    let wide = CropBounds { left: 0, top: 0, right: 120, bottom: 120 };
    let scaled = compute_diff_heatmap(lpf.clone(), flat.clone(), wide, 10).unwrap();
    assert_eq!((scaled.image_width, scaled.image_height), (60, 60));
    // bounds outside the picture are refused
    let outside = CropBounds { left: 60, top: 60, right: 121, bottom: 120 };
    assert_eq!(check_diff_heatmap(lpf.clone(), flat.clone(), outside, 10), Err(EngineError::InvalidCrop));
    let hollow = CropBounds { left: 60, top: 60, right: 60, bottom: 120 };
    assert_eq!(
        compute_diff_heatmap(lpf, flat, hollow, 10).map(|_| ()),
        Err(EngineError::InvalidCrop)
    );
}

#[test]
fn the_heatmap_pipeline_opens_the_layered_picture_first() {
    let img = solid(4, 4, [0, 0, 0, 255]);
    let bounds = CropBounds { left: 0, top: 0, right: 4, bottom: 4 };
    let broken = SourceFile { path: "x".to_string(), bytes: vec![], rich: None };
    assert_eq!(
        check_diff_heatmap(broken.clone(), broken.clone(), bounds, 0),
        Err(EngineError::Format(LpfError::TooSmall))
    );
    assert_eq!(
        check_diff_heatmap(lpf_file("a", &img), broken, bounds, 0),
        Err(EngineError::Decode)
    );
    // the layered decoder is used whatever the name of the file
    let found = check_diff_heatmap(lpf_file("a.png", &img), png_file("b.png", &img), bounds, 0).unwrap();
    assert!(!found.has_diff);
    assert_eq!(found.diff_probability_tenths, 0);
    assert_eq!(found.high_density_count, 0);
    assert!(found.markers.is_empty());
}

#[test]
fn sharp_comparison_of_rasters_gives_the_difference_image() {
    let a = solid(3, 1, [0, 0, 0, 255]);
    let mut b = a.clone();
    fill(&mut b, 2, 0, 1, [0, 11, 0, 255]);
    let (found, diff) = check_simple_aligned(&a, &b, 10);
    assert_eq!(found.diff_count, 1);
    assert_eq!(diff, vec![0, 0, 0, 255, 0, 0, 0, 255, 255, 0, 0, 255]);
}

#[test]
fn pictures_are_prepared_for_the_cache() {
    let img = solid(40, 20, [200, 100, 50, 255]);
    let prepared = resize_image_to_png(&img, 10, 10).unwrap();
    assert_eq!((prepared.image.width, prepared.image.height), (10, 5));
    assert_eq!((prepared.original_width, prepared.original_height), (40, 20));
    assert_eq!(
        decode_raster(&prepared.image.data, "small.png"),
        Ok(solid(10, 5, [200, 100, 50, 255]))
    );
    let kept = resize_image_to_png(&img, 40, 20).unwrap();
    assert_eq!(kept.image.data, encode_png(&img).unwrap());
    let file = encode_png(&img).unwrap();
    assert_eq!(prepare_image(&file, "a.png", 10, 10), Ok(prepared));
    assert_eq!(prepare_image(&file, "a.gif", 10, 10), Err(EngineError::Decode));
    // the general decoder is used, also for the name of a layered picture
    assert_eq!(prepare_image(&file, "a.lpf", 10, 10), Err(EngineError::Decode));
}

#[test]
fn a_bright_square_on_a_large_black_page() {
    // 1000 by 1000 black; the crop of the layered picture is the same but
    // for a white square of 50 by 50 pixels at (100, 100)
    let target = solid(1000, 1000, [0, 0, 0, 255]);
    let mut page = target.clone();
    fill(&mut page, 100, 100, 50, [255, 255, 255, 255]);
    let bounds = CropBounds { left: 0, top: 0, right: 1000, bottom: 1000 };
    let found =
        check_diff_heatmap(lpf_file("page.lpf", &page), png_file("page.png", &target), bounds, 10)
            .unwrap();
    assert!(found.has_diff);
    assert_eq!(found.high_density_count, 1664);
    assert_eq!(found.diff_probability_tenths, 1000);
    assert_eq!(
        found.markers,
        vec![DiffMarker { twice_x: 249, twice_y: 249, twice_radius: 163, count: 1664 }]
    );
    assert_eq!((found.image_width, found.image_height), (1000, 1000));
    // the pixels further than 15 from the edge of the square see nothing but
    // the square: there are 20 * 20 of them, and all are counted
    assert!(found.high_density_count >= 20 * 20);
}
