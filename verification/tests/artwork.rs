use thumbchanger::mp4::artwork::{covr_box, ImageKind};
use thumbchanger::mp4::box_header::{BoxHeader, FourCc};

#[test]
fn sniffs_jpeg_and_png() {
    assert_eq!(ImageKind::sniff(&[0xFF, 0xD8, 0xFF, 0xE0]).unwrap(), ImageKind::Jpeg);
    assert_eq!(ImageKind::sniff(b"\x89PNG\r\n\x1a\nxxxx").unwrap(), ImageKind::Png);
    assert!(ImageKind::sniff(b"GIF89a").is_err());
    assert!(ImageKind::sniff(b"").is_err());
}

#[test]
fn data_type_codes_match_itunes() {
    assert_eq!(ImageKind::Jpeg.data_type(), 13);
    assert_eq!(ImageKind::Png.data_type(), 14);
}

#[test]
fn covr_box_layout_matches_ffmpeg() {
    // FFmpeg wrote covr size=272 / data size=264 for a 248-byte JPEG.
    let b = covr_box(ImageKind::Jpeg, &[0xAB; 248]);
    assert_eq!(b.len(), 272);
    assert_eq!(&b[0..8], &[0, 0, 1, 16, b'c', b'o', b'v', b'r']);
    assert_eq!(&b[8..16], &[0, 0, 1, 8, b'd', b'a', b't', b'a']);
    assert_eq!(&b[16..24], &[0, 0, 0, 13, 0, 0, 0, 0]);
    assert_eq!(b[24], 0xAB);
}

#[test]
fn sniff_needs_the_full_magic() {
    assert!(ImageKind::sniff(&[0xFF, 0xD8]).is_err());
    assert!(ImageKind::sniff(b"\x89PNG\r\n\x1a").is_err());
    assert_eq!(ImageKind::sniff(&[0xFF, 0xD8, 0xFF]).unwrap(), ImageKind::Jpeg);
}

#[test]
fn png_covr_parses_back() {
    let image = b"\x89PNG\r\n\x1a\nfake";
    let b = covr_box(ImageKind::Png, image);
    assert_eq!(b.len(), image.len() + 24);
    let h = BoxHeader::parse(&b, 0, b.len()).unwrap().unwrap();
    assert_eq!(h.kind, FourCc::new(b"covr"));
    assert_eq!(h.size as usize, b.len());
    let d = BoxHeader::parse(&b, 8, b.len()).unwrap().unwrap();
    assert_eq!(d.kind, FourCc::new(b"data"));
    assert_eq!(&b[16..20], &[0, 0, 0, 14]);
    assert_eq!(&b[24..], &image[..]);
}
