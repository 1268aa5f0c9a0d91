use nocap::{extension_of, file_name_of, is_supported_image, is_whitelisted_extension, name_leq};

#[test]
fn supported_extensions_are_accepted() {
    for p in ["a.jpg", "a.jpeg", "a.png", "a.gif", "a.bmp", "a.webp", "a.svg"] {
        assert!(is_supported_image(p), "{}", p);
    }
}

#[test]
fn extension_match_ignores_case() {
    assert!(is_supported_image("/photos/IMG_001.JPG"));
    assert!(is_supported_image("/photos/Logo.SvG"));
    assert!(is_supported_image("Shot.PnG"));
}

#[test]
fn unsupported_or_missing_extensions_are_rejected() {
    assert!(!is_supported_image("/photos/notes.txt"));
    assert!(!is_supported_image("/photos/raw.tiff"));
    assert!(!is_supported_image("/photos/README"));
    assert!(!is_supported_image("/photos/.png"));
    assert!(!is_supported_image("/photos/image.png.bak"));
    assert!(!is_supported_image("/photos/png"));
    assert!(!is_supported_image(""));
}

#[test]
fn trailing_separators_and_dots_are_skipped() {
    assert!(is_supported_image("a.png/"));
    assert!(is_supported_image("a.png/."));
    assert!(is_supported_image("/pics//b.JPG//"));
    assert!(!is_supported_image("/pics/x.png/.."));
}

#[test]
fn extension_is_taken_from_the_final_component() {
    assert!(!is_supported_image("/albums.png/cover"));
    assert!(is_supported_image("/albums.d/cover.gif"));
}

#[test]
fn file_name_is_the_last_component() {
    assert_eq!(file_name_of("/a/b/c.png"), Some("c.png"));
    assert_eq!(file_name_of("c.png"), Some("c.png"));
    assert_eq!(file_name_of("/"), None);
    assert_eq!(file_name_of("//"), None);
    assert_eq!(file_name_of(""), None);
    assert_eq!(file_name_of("/a/b/"), Some("b"));
    assert_eq!(file_name_of("/a/b/."), Some("b"));
    assert_eq!(file_name_of("/a/b//./"), Some("b"));
    assert_eq!(file_name_of("/a/.."), None);
    assert_eq!(file_name_of("."), None);
    assert_eq!(file_name_of("a/..b"), Some("..b"));
}

#[test]
fn extension_follows_the_last_dot() {
    assert_eq!(extension_of("archive.tar.gz"), Some("gz"));
    assert_eq!(extension_of("photo.JPG"), Some("JPG"));
    assert_eq!(extension_of(".hidden"), None);
    assert_eq!(extension_of("..x"), Some("x"));
    assert_eq!(extension_of("trailing."), Some(""));
    assert_eq!(extension_of("plain"), None);
}

#[test]
fn whitelist_is_lower_case_only() {
    assert!(is_whitelisted_extension("webp"));
    assert!(!is_whitelisted_extension("WEBP"));
    assert!(!is_whitelisted_extension("jp"));
    assert!(!is_whitelisted_extension(""));
}

#[test]
fn names_compare_by_code_point() {
    assert!(name_leq("A.jpg", "a.png"));
    assert!(!name_leq("b.png", "a.png"));
    assert!(name_leq("a", "ab"));
    assert!(!name_leq("ab", "a"));
    assert!(name_leq("same", "same"));
    assert!(name_leq("Z", "a"));
    assert!(name_leq("z", "\u{e9}"));
}
