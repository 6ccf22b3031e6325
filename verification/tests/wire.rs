use thumbchanger::mp4::artwork::{covr_box, ImageKind};
use thumbchanger::mp4::box_header::{with_header, BoxHeader, FourCc};
use thumbchanger::mp4::error::Mp4Error;
use thumbchanger::mp4::finder::{mdat, moov};
use thumbchanger::wire::{
    decode_top_level, plan_request, plan_status, verify_request, STATUS_BAD_IMAGE, STATUS_ERROR,
    STATUS_FRAGMENTED, STATUS_UNSUPPORTED_LAYOUT,
};

fn bx(kind: &[u8; 4], body: &[u8]) -> Vec<u8> {
    with_header(FourCc::new(kind), 8, body)
}

fn record(kind: &[u8; 4], offset: u64, size: u64) -> Vec<u8> {
    let mut r = kind.to_vec();
    r.extend(offset.to_le_bytes());
    r.extend(size.to_le_bytes());
    r.push(8);
    r
}

fn tiny_moov() -> Vec<u8> {
    let mut stco = vec![0, 0, 0, 0, 0, 0, 0, 1];
    stco.extend(88u32.to_be_bytes());
    bx(b"moov", &bx(b"trak", &bx(b"mdia", &bx(b"minf", &bx(b"stbl", &bx(b"stco", &stco))))))
}

fn le_u64(b: &[u8], p: usize) -> u64 {
    u64::from_le_bytes(b[p..p + 8].try_into().unwrap())
}

fn le_u32(b: &[u8], p: usize) -> u32 {
    u32::from_le_bytes(b[p..p + 4].try_into().unwrap())
}

#[test]
fn top_level_list_decodes() {
    let mut bytes = record(b"ftyp", 0, 20);
    bytes.extend(record(b"moov", 20, 0x1_0000_0010));
    let top = decode_top_level(&bytes).unwrap();
    assert_eq!(
        top,
        vec![
            BoxHeader { kind: FourCc::new(b"ftyp"), offset: 0, size: 20, header_len: 8 },
            BoxHeader { kind: moov(), offset: 20, size: 0x1_0000_0010, header_len: 8 },
        ]
    );
    assert_eq!(decode_top_level(&[]).unwrap(), vec![]);
    assert_eq!(decode_top_level(&bytes[..20]), Err(Mp4Error::TopLevelListSize { len: 20 }));
}

#[test]
fn plan_is_encoded_for_the_shell() {
    let mut top = record(b"ftyp", 0, 20);
    top.extend(record(b"moov", 20, 60));
    top.extend(record(b"mdat", 80, 72));
    let image = b"\x89PNG\r\n\x1a\nfake";
    let out = plan_request(&top, tiny_moov(), image).unwrap();
    assert_eq!(out[0], 4); // ShiftAndPatch
    assert_eq!(le_u64(&out, 1) as i64, 97);
    assert_eq!(le_u32(&out, 9), 1); // patched offsets
    assert_eq!(le_u64(&out, 13), 249); // output length
    assert_eq!(le_u32(&out, 21), 36); // covr length
    assert_eq!(le_u32(&out, 25), 0); // removed covr
    assert_eq!(le_u64(&out, 29), 20); // old moov offset
    assert_eq!(le_u64(&out, 37), 80); // old moov end
    let created_len = u16::from_le_bytes([out[45], out[46]]) as usize;
    assert_eq!(&out[47..47 + created_len], b"udta/meta/ilst");
    let mut p = 47 + created_len;
    assert_eq!(le_u32(&out, p), 3);
    p += 4;
    // copy ftyp, bytes of the new moov, copy mdat
    assert_eq!((out[p], le_u64(&out, p + 1), le_u64(&out, p + 9)), (0, 0, 20));
    p += 17;
    assert_eq!((out[p], le_u64(&out, p + 1), le_u64(&out, p + 9)), (1, 0, 157));
    p += 17;
    assert_eq!((out[p], le_u64(&out, p + 1), le_u64(&out, p + 9)), (0, 80, 72));
    p += 17;
    assert_eq!(le_u32(&out, p), 157);
    p += 4;
    assert_eq!(out.len(), p + 157);
    assert_eq!(&out[p + 4..p + 8], b"moov");
}

#[test]
fn refused_requests_carry_their_status() {
    let mut top = record(b"ftyp", 0, 20);
    top.extend(record(b"moov", 20, 60));
    top.extend(record(b"mdat", 80, 72));
    let png = b"\x89PNG\r\n\x1a\nfake";
    assert_eq!(
        plan_request(&top, tiny_moov(), b"GIF89a"),
        Err((STATUS_BAD_IMAGE, Mp4Error::UnrecognizedImage))
    );
    assert_eq!(
        plan_request(&top[..20], tiny_moov(), png),
        Err((STATUS_ERROR, Mp4Error::TopLevelListSize { len: 20 }))
    );
    let mut frag = top.clone();
    frag.extend(record(b"moof", 152, 8));
    assert_eq!(plan_request(&frag, tiny_moov(), png), Err((STATUS_FRAGMENTED, Mp4Error::FragmentedTopLevel)));
    assert_eq!(
        plan_request(&top[..42], tiny_moov(), png),
        Err((STATUS_UNSUPPORTED_LAYOUT, Mp4Error::NoMdat))
    );
    let mut huge = record(b"moov", 0, 60);
    huge.extend(record(b"mdat", u64::MAX - 4, 72));
    assert_eq!(plan_request(&huge, tiny_moov(), png), Err((STATUS_ERROR, Mp4Error::SizeOutOfRange)));
}

#[test]
fn status_follows_the_kind_of_refusal() {
    assert_eq!(plan_status(&Mp4Error::FragmentedMvex), STATUS_FRAGMENTED);
    assert_eq!(plan_status(&Mp4Error::MoovCount { count: 2 }), STATUS_UNSUPPORTED_LAYOUT);
    assert_eq!(plan_status(&Mp4Error::ChunkOffsetInsideMoov { value: 3 }), STATUS_UNSUPPORTED_LAYOUT);
    assert_eq!(
        plan_status(&Mp4Error::InvalidSize { kind: moov(), offset: 0, size: 4 }),
        STATUS_UNSUPPORTED_LAYOUT
    );
    assert_eq!(
        plan_status(&Mp4Error::PastParent { kind: mdat(), offset: 0, size: 4, limit: 2 }),
        STATUS_UNSUPPORTED_LAYOUT
    );
    assert_eq!(
        plan_status(&Mp4Error::InvalidSize { kind: FourCc::new(b"trak"), offset: 0, size: 4 }),
        STATUS_ERROR
    );
    assert_eq!(plan_status(&Mp4Error::StcoOverflow { value: 1 << 32 }), STATUS_ERROR);
    assert_eq!(
        plan_status(&Mp4Error::TruncatedHeader { kind: moov(), offset: 0 }),
        STATUS_ERROR
    );
    assert_eq!(
        plan_status(&Mp4Error::TruncatedHeader { kind: FourCc::new(b"udta"), offset: 8 }),
        STATUS_ERROR
    );
}

#[test]
fn moov_check_reports_the_count() {
    let input = tiny_moov();
    let covr = covr_box(ImageKind::Jpeg, &[0xFF, 0xD8, 0xFF]);
    let mut meta = vec![0, 0, 0, 0];
    meta.extend(bx(b"ilst", &covr));
    let mut body = input[8..].to_vec();
    body.extend(bx(b"udta", &bx(b"meta", &meta)));
    let output = bx(b"moov", &body);
    let out = verify_request(&input, &output, covr.len() as u32, 0, 80).unwrap();
    assert_eq!(out, 1u32.to_le_bytes().to_vec());
    assert_eq!(verify_request(&input, &input, 10, 0, 80), Err(Mp4Error::CovrCount { count: 0 }));
}
