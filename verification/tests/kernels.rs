use printdiff::cluster::{cluster_markers, DiffMarker};
use printdiff::diff::{diff_simple_core, DiffPixel};
use printdiff::heatmap::diff_heatmap_core;

fn solid(width: u32, height: u32, rgba: [u8; 4]) -> Vec<u8> {
    let mut buf = Vec::new();
    for _ in 0..(width as usize * height as usize) {
        buf.extend_from_slice(&rgba);
    }
    buf
}

fn set_pixel(buf: &mut [u8], width: u32, x: u32, y: u32, rgba: [u8; 4]) {
    let at = 4 * (y as usize * width as usize + x as usize);
    buf[at..at + 4].copy_from_slice(&rgba);
}

#[test]
fn identical_red_images_have_no_difference() {
    let a = solid(2, 2, [255, 0, 0, 255]);
    let b = a.clone();
    let (buf, count, points) = diff_simple_core(&a, &b, 2, 2, 0);
    assert_eq!(count, 0);
    assert!(points.is_empty());
    assert_eq!(buf, solid(2, 2, [0, 0, 0, 255]));
    assert!(cluster_markers(&points, 200, 1, 300).is_empty());
}

#[test]
fn single_pixel_change_is_found() {
    let a = solid(2, 2, [255, 255, 255, 255]);
    let mut b = a.clone();
    set_pixel(&mut b, 2, 1, 0, [0, 0, 0, 255]);
    let (buf, count, points) = diff_simple_core(&a, &b, 2, 2, 10);
    assert_eq!(count, 1);
    assert_eq!(points, vec![DiffPixel { x: 1, y: 0 }]);
    let mut expected = solid(2, 2, [0, 0, 0, 255]);
    set_pixel(&mut expected, 2, 1, 0, [255, 0, 0, 255]);
    assert_eq!(buf, expected);
    let markers = cluster_markers(&points, 200, 1, 300);
    assert_eq!(
        markers,
        vec![DiffMarker { twice_x: 2, twice_y: 0, twice_radius: 600, count: 1 }]
    );
}

#[test]
fn noise_below_the_threshold_is_ignored() {
    let a = solid(10, 10, [128, 128, 128, 255]);
    let b = solid(10, 10, [133, 128, 128, 255]);
    let (_, count, points) = diff_simple_core(&a, &b, 10, 10, 10);
    assert_eq!(count, 0);
    assert!(points.is_empty());
}

#[test]
fn gap_equal_to_the_threshold_does_not_differ() {
    let a = solid(1, 1, [100, 100, 100, 255]);
    let b = solid(1, 1, [100, 110, 100, 0]);
    assert_eq!(diff_simple_core(&a, &b, 1, 1, 10).1, 0);
    assert_eq!(diff_simple_core(&a, &b, 1, 1, 9).1, 1);
}

fn two_squares(size: u32, first: u32, second: u32) -> (Vec<u8>, Vec<u8>) {
    let a = solid(size, size, [0, 0, 0, 255]);
    let mut b = a.clone();
    for dy in 0..10 {
        for dx in 0..10 {
            set_pixel(&mut b, size, first - 5 + dx, first - 5 + dy, [255, 255, 255, 255]);
            set_pixel(&mut b, size, second - 5 + dx, second - 5 + dy, [255, 255, 255, 255]);
        }
    }
    (a, b)
}

#[test]
fn squares_in_touching_cells_share_a_marker() {
    // With cells of 200 pixels the squares around (50, 50) and (350, 350)
    // lie in the cells (0, 0) and (1, 1), which touch at a corner.
    let (a, b) = two_squares(400, 50, 350);
    let (_, count, points) = diff_simple_core(&a, &b, 400, 400, 10);
    assert_eq!(count, 200);
    let markers = cluster_markers(&points, 200, 1, 300);
    assert_eq!(
        markers,
        vec![DiffMarker { twice_x: 399, twice_y: 399, twice_radius: 600, count: 200 }]
    );
}

#[test]
fn two_separated_squares_give_two_markers() {
    // Around (50, 50) and (450, 450) the cells are (0, 0) and (2, 2).
    let (a, b) = two_squares(600, 50, 450);
    let (_, count, points) = diff_simple_core(&a, &b, 600, 600, 10);
    assert_eq!(count, 200);
    let markers = cluster_markers(&points, 200, 1, 300);
    assert_eq!(markers.len(), 2);
    assert_eq!(markers[0], DiffMarker { twice_x: 99, twice_y: 99, twice_radius: 600, count: 100 });
    assert_eq!(markers[1], DiffMarker { twice_x: 899, twice_y: 899, twice_radius: 600, count: 100 });
}

#[test]
fn diff_counts_do_not_depend_on_the_order_of_the_images() {
    let a = solid(3, 2, [10, 20, 30, 255]);
    let mut b = a.clone();
    set_pixel(&mut b, 3, 2, 1, [10, 90, 30, 255]);
    set_pixel(&mut b, 3, 0, 0, [0, 20, 30, 255]);
    let ab = diff_simple_core(&a, &b, 3, 2, 5);
    let ba = diff_simple_core(&b, &a, 3, 2, 5);
    assert_eq!(ab, ba);
    assert_eq!(ab.1, 2);
}

#[test]
fn raising_the_threshold_never_finds_more() {
    let a = solid(4, 4, [0, 0, 0, 255]);
    let mut b = a.clone();
    for i in 0..16u32 {
        set_pixel(&mut b, 4, i % 4, i / 4, [(i * 16) as u8, 0, 0, 255]);
    }
    let mut last = usize::MAX;
    for t in 0..=255u8 {
        let count = diff_simple_core(&a, &b, 4, 4, t).1;
        assert!(count <= last);
        last = count;
    }
    assert_eq!(diff_simple_core(&a, &b, 4, 4, 0).1, 15);
    assert_eq!(diff_simple_core(&a, &b, 4, 4, 255).1, 0);
}

#[test]
fn touching_cells_form_one_cluster() {
    let points = vec![
        DiffPixel { x: 10, y: 10 },
        DiffPixel { x: 110, y: 110 },
        DiffPixel { x: 190, y: 20 },
        DiffPixel { x: 900, y: 900 },
    ];
    let markers = cluster_markers(&points, 100, 1, 80);
    assert_eq!(markers.len(), 2);
    assert_eq!(markers[0], DiffMarker { twice_x: 200, twice_y: 120, twice_radius: 300, count: 3 });
    assert_eq!(markers[1], DiffMarker { twice_x: 1800, twice_y: 1800, twice_radius: 160, count: 1 });
}

#[test]
fn small_clusters_are_dropped() {
    let points = vec![DiffPixel { x: 1, y: 1 }, DiffPixel { x: 2, y: 2 }, DiffPixel { x: 5000, y: 1 }];
    let markers = cluster_markers(&points, 250, 2, 80);
    assert_eq!(markers.len(), 1);
    assert_eq!(markers[0].count, 2);
    assert!(cluster_markers(&points, 250, 3, 80).is_empty());
    assert!(cluster_markers(&[], 250, 0, 80).is_empty());
}

#[test]
fn padding_is_wider_for_large_minimum_radii() {
    let points = vec![DiffPixel { x: 0, y: 0 }, DiffPixel { x: 1000, y: 10 }];
    let wide = cluster_markers(&points, 2000, 1, 201);
    assert_eq!(wide[0].twice_radius, 1200);
    let narrow = cluster_markers(&points, 2000, 1, 200);
    assert_eq!(narrow[0].twice_radius, 1120);
}

#[test]
fn heatmap_of_equal_images_is_black() {
    let a = solid(40, 40, [7, 7, 7, 255]);
    let (buf, high, points) = diff_heatmap_core(&a, &a, 40, 40, 0);
    assert_eq!(high, 0);
    assert!(points.is_empty());
    assert_eq!(buf, solid(40, 40, [0, 0, 0, 255]));
}

#[test]
fn heatmap_colours_a_dense_square() {
    let a = solid(100, 100, [0, 0, 0, 255]);
    let mut b = a.clone();
    for y in 40..60 {
        for x in 40..60 {
            set_pixel(&mut b, 100, x, y, [255, 255, 255, 255]);
        }
    }
    let (buf, high, points) = diff_heatmap_core(&a, &b, 100, 100, 10);
    assert_eq!(high, points.len());
    assert!(high > 0);
    // The centre of the square sees all 400 hits in its 961-pixel window,
    // which is the greatest density: normalised 1.0, the hot end of the ramp.
    let centre = 4 * (50 * 100 + 50);
    assert_eq!(&buf[centre..centre + 4], &[255, 0, 0, 255]);
    assert!(points.contains(&DiffPixel { x: 50, y: 50 }));
    // A corner pixel of the square sees 16 * 16 = 256 hits: normalised 0.64.
    let corner = 4 * (40 * 100 + 40);
    assert_eq!(&buf[corner..corner + 4], &[255, 229, 0, 255]);
    // Outside the square nothing differs, so nothing is coloured.
    assert_eq!(&buf[0..4], &[0, 0, 0, 255]);
    for p in &points {
        assert!((40..60).contains(&p.x) && (40..60).contains(&p.y));
    }
    // the counted pixels are exactly those painted in the hot band
    let hot = buf.chunks(4).filter(|px| px[0] == 255 && px[2] == 0).count();
    assert_eq!(hot, high);
    for p in &points {
        let at = 4 * (p.y as usize * 100 + p.x as usize);
        assert_eq!((buf[at], buf[at + 2], buf[at + 3]), (255, 0, 255));
    }
}

#[test]
fn heatmap_bands_follow_the_normalised_density() {
    // a square of 31 by 31 hits: its centre sees a full window, the greatest
    // density; towards the edge of the square the density falls
    let a = solid(80, 80, [0, 0, 0, 255]);
    let mut b = a.clone();
    for y in 20..51 {
        for x in 20..51 {
            set_pixel(&mut b, 80, x, y, [255, 255, 255, 255]);
        }
    }
    let (buf, high, _) = diff_heatmap_core(&a, &b, 80, 80, 0);
    let colour = |x: usize, y: usize| {
        let at = 4 * (y * 80 + x);
        [buf[at], buf[at + 1], buf[at + 2], buf[at + 3]]
    };
    // centre: 961 of 961, normalised 1.0
    assert_eq!(colour(35, 35), [255, 0, 0, 255]);
    // corner of the square: 16 * 16 of 961, normalised 256 / 961 = 0.266..: cool,
    // green is 0.266.. / 0.3 * 200 = 177.5.. rounded down
    assert_eq!(colour(20, 20), [0, 177, 200, 255]);
    // middle of an edge: 16 * 31 of 961, normalised 0.516..: warm, with
    // t = 0.72..: red 183, green 200 + 39, blue 55
    assert_eq!(colour(35, 20), [183, 239, 55, 255]);
    // just outside the square the pixel does not differ
    assert_eq!(colour(19, 35), [0, 0, 0, 255]);
    assert!(high > 0 && high < 31 * 31);
}

#[test]
fn heatmap_leaves_sparse_hits_black() {
    let a = solid(64, 64, [0, 0, 0, 255]);
    let mut b = a.clone();
    set_pixel(&mut b, 64, 32, 32, [255, 255, 255, 255]);
    let (buf, high, points) = diff_heatmap_core(&a, &b, 64, 64, 10);
    // One hit in 961 pixels is below the floor of 0.05.
    assert_eq!(high, 0);
    assert!(points.is_empty());
    assert_eq!(buf, solid(64, 64, [0, 0, 0, 255]));
}

#[test]
fn heatmap_of_an_empty_image_is_empty() {
    let (buf, high, points) = diff_heatmap_core(&[], &[], 0, 5, 3);
    assert!(buf.is_empty());
    assert_eq!(high, 0);
    assert!(points.is_empty());
}

#[test]
fn marker_counts_add_up_to_no_more_than_the_points() {
    let mut points = Vec::new();
    for i in 0..300u32 {
        points.push(DiffPixel { x: (i * 37) % 2000, y: (i * 91) % 1500 });
    }
    for (grid, least, radius) in [(200, 1, 300), (250, 20, 80), (50, 3, 10), (1, 2, 0)] {
        let markers = cluster_markers(&points, grid, least, radius);
        let total: usize = markers.iter().map(|m| m.count).sum();
        assert!(total <= points.len());
        for pair in markers.windows(2) {
            assert!(pair[0].count >= pair[1].count);
        }
        for m in &markers {
            assert!(m.count >= least);
            assert!(m.twice_radius >= 2 * radius as u64);
        }
        if least <= 1 {
            assert_eq!(total, points.len());
        }
    }
}

#[test]
fn markers_cover_the_box_of_their_cluster() {
    let points = vec![
        DiffPixel { x: 100, y: 100 },
        DiffPixel { x: 390, y: 120 },
        DiffPixel { x: 250, y: 340 },
    ];
    let markers = cluster_markers(&points, 200, 1, 100);
    assert_eq!(markers, vec![DiffMarker { twice_x: 490, twice_y: 440, twice_radius: 410, count: 3 }]);
    let m = markers[0];
    for p in &points {
        // pad is 60: every point lies in the square of half side radius - 60
        assert!((2 * p.x as i64 - m.twice_x as i64).abs() + 120 <= m.twice_radius as i64);
        assert!((2 * p.y as i64 - m.twice_y as i64).abs() + 120 <= m.twice_radius as i64);
        let dx = 2 * p.x as i64 - m.twice_x as i64;
        let dy = 2 * p.y as i64 - m.twice_y as i64;
        assert!(dx * dx + dy * dy <= (m.twice_radius * m.twice_radius) as i64);
    }
}

#[test]
fn a_circle_may_miss_the_corners_of_a_wide_box() {
    // two tight groups in cells that touch at a corner: the marker is
    // centred between them and its radius is half the box plus 60
    let mut points = Vec::new();
    for d in 0..4 {
        for e in 0..4 {
            points.push(DiffPixel { x: d, y: e });
            points.push(DiffPixel { x: 496 + d, y: 496 + e });
        }
    }
    let markers = cluster_markers(&points, 250, 20, 80);
    assert_eq!(markers, vec![DiffMarker { twice_x: 499, twice_y: 499, twice_radius: 619, count: 32 }]);
    let m = markers[0];
    for p in &points {
        let dx = 2 * p.x as i64 - m.twice_x as i64;
        let dy = 2 * p.y as i64 - m.twice_y as i64;
        assert!(dx.abs() + 120 <= m.twice_radius as i64);
        assert!(dx * dx + dy * dy > (m.twice_radius * m.twice_radius) as i64);
    }
}

fn holds_a_point(m: &DiffMarker, points: &[DiffPixel]) -> bool {
    points.iter().any(|p| {
        let dx = 2 * p.x as i128 - m.twice_x as i128;
        let dy = 2 * p.y as i128 - m.twice_y as i128;
        dx * dx + dy * dy <= (m.twice_radius as i128) * (m.twice_radius as i128)
    })
}

#[test]
fn sharp_markers_hold_a_point_of_their_cluster() {
    // a ring of points: the centre of its box is far from every point of it
    let mut ring = Vec::new();
    for i in 0..40u32 {
        let (x, y) = match i / 10 {
            0 => (150 * (i % 10), 0),
            1 => (1500, 150 * (i % 10)),
            2 => (1500 - 150 * (i % 10), 1500),
            _ => (0, 1500 - 150 * (i % 10)),
        };
        ring.push(DiffPixel { x, y });
    }
    let markers = cluster_markers(&ring, 200, 1, 300);
    assert_eq!(markers, vec![DiffMarker { twice_x: 1500, twice_y: 1500, twice_radius: 1700, count: 40 }]);
    assert!(holds_a_point(&markers[0], &ring));
    // the two far corners of two cells that touch at a corner
    let corners = vec![DiffPixel { x: 0, y: 0 }, DiffPixel { x: 399, y: 399 }];
    let markers = cluster_markers(&corners, 200, 1, 300);
    assert_eq!(markers.len(), 1);
    assert!(holds_a_point(&markers[0], &corners));
    let mut scattered = Vec::new();
    for i in 0..500u32 {
        scattered.push(DiffPixel { x: (i * 7919) % 5000, y: (i * 104729) % 4000 });
    }
    for m in cluster_markers(&scattered, 200, 1, 300) {
        assert!(holds_a_point(&m, &scattered));
    }
}

#[test]
fn padding_that_makes_up_for_a_cell_reaches_a_point() {
    // cells of 60 pixels, padding 60: 60 * 60 <= 60 * (side + 60) for any box
    let mut stairs = Vec::new();
    for i in 0..30u32 {
        stairs.push(DiffPixel { x: 59 * i, y: 59 * (i % 2) + 59 * i });
    }
    for m in cluster_markers(&stairs, 60, 1, 0) {
        assert!(holds_a_point(&m, &stairs));
    }
}
