use thumbchanger::mp4::box_header::{children, with_header, BoxHeader, FourCc};
use thumbchanger::mp4::error::Mp4Error;

#[test]
fn reads_32bit_header() {
    let data = [0, 0, 0, 32, b'f', b't', b'y', b'p'];
    let h = BoxHeader::read(&data, 0, 32).unwrap().unwrap();
    assert_eq!(h.kind, FourCc::new(b"ftyp"));
    assert_eq!(h.size, 32);
    assert_eq!(h.header_len, 8);
    assert_eq!(h.payload_offset(), 8);
}

#[test]
fn reads_largesize_header() {
    let mut data = vec![0, 0, 0, 1, b'm', b'd', b'a', b't'];
    data.extend_from_slice(&0x1_0000_0010u64.to_be_bytes());
    let h = BoxHeader::read(&data, 40, u64::MAX).unwrap().unwrap();
    assert_eq!(h.size, 0x1_0000_0010);
    assert_eq!(h.header_len, 16);
    assert_eq!(h.payload_offset(), 56);
}

#[test]
fn size_zero_extends_to_limit() {
    let data = [0, 0, 0, 0, b'm', b'd', b'a', b't'];
    let h = BoxHeader::read(&data, 100, 1000).unwrap().unwrap();
    assert_eq!(h.size, 900);
}

#[test]
fn rejects_overrun_and_tiny_sizes() {
    let data = [0, 0, 0, 64, b'm', b'o', b'o', b'v'];
    assert!(BoxHeader::read(&data, 0, 32).is_err());
    let data = [0, 0, 0, 4, b'm', b'o', b'o', b'v'];
    assert!(BoxHeader::read(&data, 0, 32).is_err());
}

#[test]
fn eof_yields_none() {
    assert!(BoxHeader::read(&[], 0, 0).unwrap().is_none());
}

#[test]
fn with_header_roundtrips() {
    let b = with_header(FourCc::new(b"free"), 8, &[0; 4]);
    assert_eq!(b.len(), 12);
    let h = BoxHeader::parse(&b, 0, b.len()).unwrap().unwrap();
    assert_eq!(h.size, 12);
    assert_eq!(h.header_len, 8);

    let b = with_header(FourCc::new(b"mdat"), 16, &[0; 4]);
    assert_eq!(b.len(), 20);
    let h = BoxHeader::parse(&b, 0, b.len()).unwrap().unwrap();
    assert_eq!(h.size, 20);
    assert_eq!(h.header_len, 16);
}

#[test]
fn children_parses_siblings() {
    let mut b = with_header(FourCc::new(b"aaaa"), 8, &[1, 2]);
    b.extend(with_header(FourCc::new(b"bbbb"), 8, &[]));
    let kids = children(&b, 0, b.len()).unwrap();
    assert_eq!(kids.len(), 2);
    assert_eq!(kids[1].offset, 10);
    assert_eq!(kids[1].range(), 10..18);
}

#[test]
fn truncated_largesize_is_an_error() {
    let data = [0, 0, 0, 1, b'm', b'd', b'a', b't', 0, 0];
    match BoxHeader::read(&data, 0, 100) {
        Err(Mp4Error::TruncatedHeader { kind, offset }) => {
            assert_eq!(kind, FourCc::new(b"mdat"));
            assert_eq!(offset, 0);
        }
        other => panic!("unexpected {other:?}"),
    }
}

#[test]
fn error_variants_carry_the_box() {
    let data = [0, 0, 0, 4, b'm', b'o', b'o', b'v'];
    assert_eq!(
        BoxHeader::read(&data, 0, 32),
        Err(Mp4Error::InvalidSize { kind: FourCc::new(b"moov"), offset: 0, size: 4 })
    );
    let data = [0, 0, 0, 64, b'm', b'o', b'o', b'v'];
    assert_eq!(
        BoxHeader::read(&data, 0, 32),
        Err(Mp4Error::PastParent { kind: FourCc::new(b"moov"), offset: 0, size: 64, limit: 32 })
    );
}

#[test]
fn size_zero_before_offset_is_too_small() {
    // limit below the offset resolves size 0 to 0, smaller than the header
    let data = [0, 0, 0, 0, b'f', b'r', b'e', b'e'];
    assert!(matches!(BoxHeader::read(&data, 50, 10), Err(Mp4Error::InvalidSize { size: 0, .. })));
}

#[test]
fn parse_clamps_limit_to_buffer() {
    let b = with_header(FourCc::new(b"free"), 8, &[9; 8]);
    // limit past the buffer is clamped; reading at the end yields None
    assert!(BoxHeader::parse(&b, 16, 100).unwrap().is_none());
    let h = BoxHeader::parse(&b, 0, 100).unwrap().unwrap();
    assert_eq!(h.end(), 16);
}

#[test]
fn with_header_switches_to_largesize_only_when_asked() {
    let b = with_header(FourCc::new(b"skip"), 8, &[]);
    assert_eq!(b, vec![0, 0, 0, 8, b's', b'k', b'i', b'p']);
    let b = with_header(FourCc::new(b"skip"), 16, &[]);
    assert_eq!(b, vec![0, 0, 0, 1, b's', b'k', b'i', b'p', 0, 0, 0, 0, 0, 0, 0, 16]);
}
