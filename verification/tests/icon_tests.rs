use quiet::icon::{decode_image_data, icon_candidates, raw_image_key, IconCache, MAX_ICON_CACHE_ENTRIES};
use tiny_skia::Pixmap;

#[test]
fn test_image_data_premultiplication() {
    let data = vec![200u8, 50u8, 50u8, 100u8];
    let pixels = decode_image_data(1, 1, 4, true, 8, 4, &data);
    assert!(pixels.is_some());
    let p = pixels.unwrap();
    let (r, _g, _b, a) = p[0];
    assert_eq!(a, 100);
    assert_eq!(r, 78);
}

#[test]
fn image_data_is_refused_when_malformed() {
    assert!(decode_image_data(0, 1, 4, true, 8, 4, &[0; 4]).is_none());
    assert!(decode_image_data(4097, 1, 4 * 4097, true, 8, 4, &vec![0; 4 * 4097]).is_none());
    assert!(decode_image_data(1, 1, 4, true, 16, 4, &[0; 8]).is_none());
    assert!(decode_image_data(1, 1, 4, true, 8, 2, &[0; 4]).is_none());
    assert!(decode_image_data(2, 1, 5, true, 8, 3, &[0; 6]).is_none());
    assert!(decode_image_data(2, 2, 6, false, 8, 3, &[0; 11]).is_none());
}

#[test]
fn rgb_image_data_is_opaque_and_rows_follow_the_stride() {
    // 2x2 RGB, rows padded to 8 bytes
    let data = vec![1, 2, 3, 4, 5, 6, 0, 0, 7, 8, 9, 10, 11, 12];
    let p = decode_image_data(2, 2, 8, false, 8, 3, &data).unwrap();
    assert_eq!(p, vec![(1, 2, 3, 255), (4, 5, 6, 255), (7, 8, 9, 255), (10, 11, 12, 255)]);
    let t = decode_image_data(1, 1, 4, true, 8, 4, &[9, 9, 9, 0]).unwrap();
    assert_eq!(t[0], (0, 0, 0, 0));
}

#[test]
fn raw_image_keys() {
    assert_eq!(raw_image_key(42), "raw-image:42");
}

#[test]
fn test_icon_cache_retains_raw_images() {
    let mut cache = IconCache::new(None, 32);
    let dummy = Pixmap::new(32, 32).unwrap();
    cache.insert_pixmap("raw-image:42".into(), dummy.clone());

    for i in 0..MAX_ICON_CACHE_ENTRIES + 10 {
        cache.insert_pixmap(format!("icon-{}", i), dummy.clone());
    }

    let no_load = |_: &str, _: Option<&str>, _: u32| -> Option<Pixmap> { None };
    assert!(cache.get("raw-image:42", &no_load).is_some());
}

#[test]
fn icon_cache_remembers_misses_and_trims_names() {
    let mut cache = IconCache::new(Some("Theme".into()), 16);
    let seen = std::cell::RefCell::new(Vec::new());
    let load = |name: &str, theme: Option<&str>, size: u32| -> Option<Pixmap> {
        seen.borrow_mut().push((name.to_string(), theme.map(|t| t.to_string()), size));
        None
    };
    assert!(cache.get("", &load).is_none());
    assert!(cache.get("  missing ", &load).is_none());
    assert!(cache.get("missing", &load).is_none());
    assert_eq!(seen.borrow().len(), 1);
    assert_eq!(seen.borrow()[0], ("missing".to_string(), Some("Theme".to_string()), 16));
    cache.remove("missing");
    assert!(cache.get("missing", &load).is_none());
    assert_eq!(seen.borrow().len(), 2);
}

#[test]
fn icon_candidates_order() {
    let bases = vec!["/usr/share/icons".to_string()];
    let c = icon_candidates("firefox", None, &bases);
    assert_eq!(c[0], "/usr/share/icons/Papirus-Dark/32x32/apps/firefox.svg");
    assert_eq!(c[1], "/usr/share/icons/Papirus-Dark/32x32/apps/firefox.png");
    // 5 themes x 1 base x 11 subdirectories x 2 formats, then the 3 pixmaps candidates
    assert_eq!(c.len(), 5 * 11 * 2 + 3);
    assert_eq!(c[c.len() - 3], "/usr/share/pixmaps/firefox.svg");
    assert_eq!(c[c.len() - 1], "/usr/share/pixmaps/firefox");

    let c = icon_candidates("file:///tmp/a.png", Some("hicolor"), &bases);
    assert_eq!(c[0], "/tmp/a.png");
    // the configured theme comes first and is not repeated
    assert_eq!(c[1], "/usr/share/icons/hicolor/32x32/apps/file:///tmp/a.svg");
    assert_eq!(c.len(), 1 + 5 * 11 * 2 + 3);
    assert!(icon_candidates("   ", None, &bases).is_empty());
}

#[test]
fn the_loader_gets_the_trimmed_name_the_theme_and_the_size() {
    let calls: std::cell::RefCell<Vec<(String, Option<String>, u32)>> = std::cell::RefCell::new(Vec::new());
    let load = |name: &str, theme: Option<&str>, size: u32| {
        calls.borrow_mut().push((name.to_string(), theme.map(String::from), size));
        if name == "found" {
            Pixmap::new(size, size)
        } else {
            None
        }
    };
    let mut cache = IconCache::new(Some("Papirus".into()), 24);
    let got = cache.get("  found ", &load).expect("the loader's image is returned");
    assert_eq!(got.width(), 24);
    assert_eq!(calls.borrow()[0], ("found".to_string(), Some("Papirus".to_string()), 24));
    assert!(cache.get("found", &load).is_some());
    assert_eq!(calls.borrow().len(), 1, "a remembered icon is not loaded again");
    cache.preload(" other", &load);
    assert_eq!(calls.borrow()[1], ("other".to_string(), Some("Papirus".to_string()), 24));
    assert!(cache.get("other", &load).is_none());
    assert_eq!(calls.borrow().len(), 2, "a remembered miss is not loaded again");
}

#[test]
fn test_find_icon_path_fallback() {
    let bases = vec!["/usr/share/icons".to_string()];
    let c = icon_candidates("debian-logo", None, &bases);
    assert!(c.iter().any(|p| p == "/usr/share/pixmaps/debian-logo.png"));
}
