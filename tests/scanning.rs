use nocap::{image_for_entry, scan_directory_for_images, DirEntryInfo, ImageFile};

fn file(dir: &str, name: &str) -> DirEntryInfo {
    DirEntryInfo { path: format!("{}/{}", dir, name), name: Some(name.to_string()), is_file: true }
}

fn subdir(dir: &str, name: &str) -> DirEntryInfo {
    DirEntryInfo { path: format!("{}/{}", dir, name), name: Some(name.to_string()), is_file: false }
}

fn names(v: &[ImageFile]) -> Vec<&str> {
    v.iter().map(|f| f.filename.as_str()).collect()
}

#[test]
fn scan_sorts_case_sensitively_and_filters() {
    let d = "/pics";
    let listing = vec![file(d, "b.png"), file(d, "A.jpg"), file(d, "c.txt"), file(d, "a.png")];
    let r = scan_directory_for_images(&listing);
    assert_eq!(names(&r), vec!["A.jpg", "a.png", "b.png"]);
    assert_eq!(r[0].path, "/pics/A.jpg");
    assert_eq!(r[0].extension, "jpg");
    assert_eq!(r[1].extension, "png");
}

#[test]
fn scan_lowercases_extensions() {
    let d = "/pics";
    let r = scan_directory_for_images(&vec![file(d, "X.JPEG"), file(d, "y.WebP")]);
    assert_eq!(names(&r), vec!["X.JPEG", "y.WebP"]);
    assert_eq!(r[0].extension, "jpeg");
    assert_eq!(r[1].extension, "webp");
}

#[test]
fn scan_skips_directories_and_untextual_names() {
    let d = "/pics";
    let odd = DirEntryInfo { path: "/pics/\u{fffd}.png".to_string(), name: None, is_file: true };
    let r = scan_directory_for_images(&vec![subdir(d, "album.png"), odd, file(d, "keep.gif")]);
    assert_eq!(names(&r), vec!["keep.gif"]);
}

#[test]
fn scan_of_empty_listing_is_empty() {
    assert!(scan_directory_for_images(&Vec::new()).is_empty());
}

#[test]
fn scan_is_strictly_ascending_and_whitelisted() {
    let d = "/p";
    let listing: Vec<DirEntryInfo> = ["z.svg", "m.BMP", "Q.gif", "a.jpeg", "ñ.png", "0.webp", "doc.pdf"]
        .iter()
        .map(|n| file(d, n))
        .collect();
    let r = scan_directory_for_images(&listing);
    assert_eq!(r.len(), 6);
    for w in r.windows(2) {
        assert!(w[0].filename.as_bytes() < w[1].filename.as_bytes());
    }
    for f in &r {
        assert!(["jpg", "jpeg", "png", "gif", "bmp", "webp", "svg"].contains(&f.extension.as_str()));
    }
}

#[test]
fn scan_twice_gives_identical_output() {
    let d = "/p";
    let listing = vec![file(d, "b.png"), file(d, "a.gif"), file(d, "c.svg")];
    let first = scan_directory_for_images(&listing);
    let second = scan_directory_for_images(&listing);
    assert_eq!(first, second);
}

#[test]
fn equal_names_keep_listing_order() {
    let a = DirEntryInfo { path: "/one/x.png".to_string(), name: Some("x.png".to_string()), is_file: true };
    let b = DirEntryInfo { path: "/two/x.png".to_string(), name: Some("x.png".to_string()), is_file: true };
    let r = scan_directory_for_images(&vec![a, b]);
    assert_eq!(r[0].path, "/one/x.png");
    assert_eq!(r[1].path, "/two/x.png");
}

#[test]
fn single_entry_classification() {
    let d = "/p";
    let img = image_for_entry(&file(d, "Cat.GIF")).unwrap();
    assert_eq!(img.filename, "Cat.GIF");
    assert_eq!(img.extension, "gif");
    assert!(image_for_entry(&file(d, "cat.txt")).is_none());
    assert!(image_for_entry(&subdir(d, "cat.gif")).is_none());
}

#[test]
fn scan_ignores_listing_order() {
    let d = "/p";
    let one = vec![file(d, "b.png"), file(d, "a.gif"), subdir(d, "z"), file(d, "C.svg")];
    let two = vec![file(d, "C.svg"), subdir(d, "z"), file(d, "a.gif"), file(d, "b.png")];
    assert_eq!(scan_directory_for_images(&one), scan_directory_for_images(&two));
    assert_eq!(names(&scan_directory_for_images(&one)), vec!["C.svg", "a.gif", "b.png"]);
}
