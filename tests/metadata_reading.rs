use nocap::{extract_metadata, is_vector_image, read_header, ImageHeader, MetadataError, RasterFormat};

fn png_bytes(w: u32, h: u32) -> Vec<u8> {
    let mut b = vec![0x89, 0x50, 0x4e, 0x47, 0x0d, 0x0a, 0x1a, 0x0a, 0, 0, 0, 13, b'I', b'H', b'D', b'R'];
    b.extend_from_slice(&w.to_be_bytes());
    b.extend_from_slice(&h.to_be_bytes());
    b.extend_from_slice(&[8, 6, 0, 0, 0]);
    b
}

#[test]
fn png_metadata_reports_header_dimensions_and_size() {
    let bytes = png_bytes(100, 50);
    let m = extract_metadata("/p/shot.png", Some(1234), &bytes).unwrap();
    assert_eq!(m.width, 100);
    assert_eq!(m.height, 50);
    assert_eq!(m.size, 1234);
    assert_eq!(m.format, "png");
    assert_eq!(m.path, "/p/shot.png");
}

#[test]
fn vector_metadata_has_zero_dimensions() {
    let svg = b"<svg xmlns=\"http://www.w3.org/2000/svg\" width=\"10\"/>";
    let m = extract_metadata("/p/logo.SVG", Some(svg.len() as u64), svg).unwrap();
    assert_eq!((m.width, m.height), (0, 0));
    assert_eq!(m.size, svg.len() as u64);
    assert_eq!(m.format, "svg");
}

#[test]
fn unreadable_file_is_an_io_error() {
    assert_eq!(extract_metadata("/p/gone.png", None, &[]), Err(MetadataError::IoError));
    assert_eq!(extract_metadata("/p/gone.svg", None, &[]), Err(MetadataError::IoError));
}

#[test]
fn unknown_bytes_are_a_decode_error() {
    assert_eq!(extract_metadata("/p/x.png", Some(5), b"hello"), Err(MetadataError::DecodeError));
    let truncated = &png_bytes(1, 1)[..20];
    assert_eq!(extract_metadata("/p/x.png", Some(20), truncated), Err(MetadataError::DecodeError));
}

#[test]
fn gif_header_is_little_endian() {
    let b = [b'G', b'I', b'F', b'8', b'9', b'a', 0x2c, 0x01, 0xc8, 0x00, 0, 0];
    assert_eq!(read_header(&b), Some(ImageHeader { format: RasterFormat::Gif, width: 300, height: 200 }));
    let m = extract_metadata("/p/a.gif", Some(12), &b).unwrap();
    assert_eq!(m.format, "gif");
}

#[test]
fn bmp_top_down_height_is_positive() {
    let mut b = vec![0u8; 30];
    b[0] = b'B';
    b[1] = b'M';
    b[14..18].copy_from_slice(&40u32.to_le_bytes());
    b[18..22].copy_from_slice(&640i32.to_le_bytes());
    b[22..26].copy_from_slice(&(-480i32).to_le_bytes());
    assert_eq!(read_header(&b), Some(ImageHeader { format: RasterFormat::Bmp, width: 640, height: 480 }));
}

#[test]
fn jpeg_dimensions_come_from_the_frame_header() {
    let mut b = vec![0xff, 0xd8];
    b.extend_from_slice(&[0xff, 0xe0, 0x00, 0x10]);
    b.extend_from_slice(&[b'J', b'F', b'I', b'F', 0, 1, 1, 0, 0, 1, 0, 1, 0, 0]);
    b.extend_from_slice(&[0xff, 0xc0, 0x00, 0x11, 0x08, 0x01, 0xe0, 0x02, 0x80, 0x03]);
    assert_eq!(read_header(&b), Some(ImageHeader { format: RasterFormat::Jpeg, width: 640, height: 480 }));
    let m = extract_metadata("/p/a.jpg", Some(b.len() as u64), &b).unwrap();
    assert_eq!(m.format, "jpeg");
}

#[test]
fn jpeg_without_frame_header_fails() {
    let b = [0xff, 0xd8, 0xff, 0xe0, 0x00, 0x40, 0, 0];
    assert_eq!(read_header(&b), None);
}

#[test]
fn vector_detection_uses_the_extension() {
    assert!(is_vector_image("/a/b.svg"));
    assert!(is_vector_image("B.SVG"));
    assert!(!is_vector_image("/a/b.png"));
    assert!(!is_vector_image("/a.svg/b"));
}

fn webp_prefix(kind: &[u8; 4]) -> Vec<u8> {
    let mut b = Vec::new();
    b.extend_from_slice(b"RIFF");
    b.extend_from_slice(&[0x40, 0, 0, 0]);
    b.extend_from_slice(b"WEBP");
    b.extend_from_slice(kind);
    b.extend_from_slice(&[0x20, 0, 0, 0]);
    b
}

#[test]
fn webp_extended_canvas_size() {
    let mut b = webp_prefix(b"VP8X");
    b.extend_from_slice(&[0, 0, 0, 0]);
    b.extend_from_slice(&[99, 0, 0]);
    b.extend_from_slice(&[49, 0, 0]);
    assert_eq!(read_header(&b), Some(ImageHeader { format: RasterFormat::Webp, width: 100, height: 50 }));
    let m = extract_metadata("/p/a.webp", Some(30), &b).unwrap();
    assert_eq!(m.format, "webp");
}

#[test]
fn webp_lossless_size() {
    let mut b = webp_prefix(b"VP8L");
    b.push(0x2f);
    let bits: u32 = 99 | (49 << 14);
    b.extend_from_slice(&bits.to_le_bytes());
    b.extend_from_slice(&[0; 5]);
    assert_eq!(read_header(&b), Some(ImageHeader { format: RasterFormat::Webp, width: 100, height: 50 }));
}

#[test]
fn webp_lossy_size() {
    let mut b = webp_prefix(b"VP8 ");
    b.extend_from_slice(&[0, 0, 0, 0x9d, 0x01, 0x2a]);
    b.extend_from_slice(&100u16.to_le_bytes());
    b.extend_from_slice(&50u16.to_le_bytes());
    assert_eq!(read_header(&b), Some(ImageHeader { format: RasterFormat::Webp, width: 100, height: 50 }));
}
