use printdiff::cache::{CachedImage, ImageCache};
use printdiff::viewer::{
    cache_key, fit_dimensions, lookup_image, paths_to_load, store_all_preloaded, store_image,
    Prepared, Preloaded,
};

fn picture(tag: u8) -> CachedImage {
    CachedImage { data: vec![tag; 3], width: tag as u32, height: 1 }
}

#[test]
fn a_new_cache_is_empty() {
    let cache = ImageCache::new(3);
    assert_eq!(cache.len(), 0);
    assert!(cache.get("a").is_none());
    assert!(!cache.contains("a"));
}

#[test]
fn inserted_pictures_are_found() {
    let mut cache = ImageCache::new(3);
    cache.insert("a".to_string(), picture(1));
    cache.insert("b".to_string(), picture(2));
    assert_eq!(cache.len(), 2);
    assert_eq!(cache.get("a"), Some(&picture(1)));
    assert_eq!(cache.get("b"), Some(&picture(2)));
    assert!(cache.get("c").is_none());
}

#[test]
fn the_oldest_picture_is_evicted_when_full() {
    let mut cache = ImageCache::new(2);
    cache.insert("a".to_string(), picture(1));
    cache.insert("b".to_string(), picture(2));
    // a lookup does not renew the entry
    assert!(cache.get("a").is_some());
    cache.insert("c".to_string(), picture(3));
    assert_eq!(cache.len(), 2);
    assert!(cache.get("a").is_none());
    assert_eq!(cache.get("b"), Some(&picture(2)));
    assert_eq!(cache.get("c"), Some(&picture(3)));
}

#[test]
fn a_key_is_kept_once() {
    let mut cache = ImageCache::new(3);
    cache.insert("a".to_string(), picture(1));
    cache.insert("b".to_string(), picture(2));
    cache.insert("a".to_string(), picture(9));
    assert_eq!(cache.len(), 2);
    assert_eq!(cache.get("a"), Some(&picture(9)));
    // `a` is now the newest: two more insertions evict `b` first
    cache.insert("c".to_string(), picture(3));
    cache.insert("d".to_string(), picture(4));
    assert_eq!(cache.len(), 3);
    assert!(cache.get("b").is_none());
    assert_eq!(cache.get("a"), Some(&picture(9)));
}

#[test]
fn the_cache_never_exceeds_its_capacity() {
    let mut cache = ImageCache::new(4);
    for i in 0..50u8 {
        cache.insert(format!("k{}", i % 7), picture(i));
        assert!(cache.len() <= 4);
        assert_eq!(cache.get(&format!("k{}", i % 7)), Some(&picture(i)));
    }
    // the last four distinct keys inserted are k0, k6, k5, k4 (i = 49, 48, 47, 46)
    for kept in ["k0", "k6", "k5", "k4"] {
        assert!(cache.contains(kept), "{} should be kept", kept);
    }
    for gone in ["k1", "k2", "k3"] {
        assert!(!cache.contains(gone), "{} should be gone", gone);
    }
}

#[test]
fn a_cache_of_one_keeps_the_last() {
    let mut cache = ImageCache::new(1);
    cache.insert("a".to_string(), picture(1));
    cache.insert("b".to_string(), picture(2));
    assert_eq!(cache.len(), 1);
    assert!(cache.get("a").is_none());
    assert_eq!(cache.get("b"), Some(&picture(2)));
}

#[test]
fn clearing_empties_the_cache() {
    let mut cache = ImageCache::new(2);
    cache.insert("a".to_string(), picture(1));
    cache.clear();
    assert_eq!(cache.len(), 0);
    assert!(cache.get("a").is_none());
    cache.insert("b".to_string(), picture(2));
    assert_eq!(cache.len(), 1);
}

#[test]
fn keys_hold_the_path_and_the_caps() {
    assert_eq!(cache_key("/img/a.png", 800, 600), "/img/a.png:800x600");
    assert_eq!(cache_key("", 0, 4294967295), ":0x4294967295");
    assert_eq!(cache_key("é.tif", 10, 1009), "é.tif:10x1009");
}

#[test]
fn pictures_that_fit_keep_their_size() {
    assert_eq!(fit_dimensions(640, 480, 800, 600), (640, 480));
    assert_eq!(fit_dimensions(800, 600, 800, 600), (800, 600));
    assert_eq!(fit_dimensions(0, 0, 10, 10), (0, 0));
}

#[test]
fn pictures_are_scaled_by_the_tighter_cap() {
    assert_eq!(fit_dimensions(1600, 1200, 800, 800), (800, 600));
    assert_eq!(fit_dimensions(1200, 1600, 800, 800), (600, 800));
    assert_eq!(fit_dimensions(1000, 500, 100, 500), (100, 50));
    // 7 * 5 / 10 = 3.5 rounds to 4
    assert_eq!(fit_dimensions(10, 7, 5, 100), (5, 4));
    // 3 * 2 / 10 = 0.6 rounds to 1; 3 * 1 / 10 = 0.3 rounds to 0 and is kept at 1
    assert_eq!(fit_dimensions(10, 3, 2, 100), (2, 1));
    assert_eq!(fit_dimensions(10, 3, 1, 100), (1, 1));
    assert_eq!(fit_dimensions(4000, 3000, 4000, 1500), (2000, 1500));
    assert_eq!(fit_dimensions(u32::MAX, u32::MAX, 1, 7), (1, 1));
}

#[test]
fn a_stored_picture_is_shown_with_the_size_of_its_source() {
    let mut cache = ImageCache::new(2);
    assert!(lookup_image(&cache, "p.png", 100, 100).is_none());
    let prepared = Prepared {
        image: CachedImage { data: b"hello".to_vec(), width: 50, height: 40 },
        original_width: 500,
        original_height: 400,
    };
    let stored = store_image(&mut cache, "p.png", 100, 100, prepared).unwrap();
    assert_eq!(stored.data_url, "data:image/png;base64,aGVsbG8=");
    assert_eq!((stored.width, stored.height), (50, 40));
    assert_eq!((stored.original_width, stored.original_height), (500, 400));
    assert!(cache.contains("p.png:100x100"));
    // on a hit the cache only knows the size after the resize
    let hit = lookup_image(&cache, "p.png", 100, 100).unwrap().unwrap();
    assert_eq!(hit.data_url, "data:image/png;base64,aGVsbG8=");
    assert_eq!((hit.width, hit.height), (50, 40));
    assert_eq!((hit.original_width, hit.original_height), (50, 40));
    assert!(lookup_image(&cache, "p.png", 100, 101).is_none());
}

#[test]
fn preload_skips_what_is_cached() {
    let mut cache = ImageCache::new(5);
    cache.insert(cache_key("b.png", 10, 20), picture(1));
    let paths = vec!["a.png".to_string(), "b.png".to_string(), "c.png".to_string()];
    assert_eq!(
        paths_to_load(&cache, &paths, 10, 20),
        vec!["a.png".to_string(), "c.png".to_string()]
    );
    assert_eq!(paths_to_load(&cache, &paths, 10, 21), paths);
    assert!(paths_to_load(&cache, &vec!["b.png".to_string()], 10, 20).is_empty());
}

#[test]
fn preload_reports_on_every_picture() {
    let mut cache = ImageCache::new(5);
    let loaded = vec![
        Preloaded { path: "a.png".to_string(), outcome: Ok(picture(1)) },
        Preloaded { path: "b.png".to_string(), outcome: Err("open error: gone".to_string()) },
        Preloaded { path: "c.png".to_string(), outcome: Ok(picture(3)) },
    ];
    let report = store_all_preloaded(&mut cache, loaded, 10, 20);
    assert_eq!(report, vec!["loaded:a.png", "error:b.png:open error: gone", "loaded:c.png"]);
    assert_eq!(cache.len(), 2);
    assert_eq!(cache.get("a.png:10x20"), Some(&picture(1)));
    assert_eq!(cache.get("c.png:10x20"), Some(&picture(3)));
    assert!(!cache.contains("b.png:10x20"));
}

#[test]
fn preload_of_nothing_says_all_cached() {
    let mut cache = ImageCache::new(5);
    assert_eq!(store_all_preloaded(&mut cache, Vec::new(), 10, 20), vec!["all cached"]);
    assert_eq!(cache.len(), 0);
}
