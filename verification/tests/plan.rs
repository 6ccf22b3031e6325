use thumbchanger::mp4::artwork::{covr_box, ImageKind};
use thumbchanger::mp4::box_header::{with_header, BoxHeader, FourCc};
use thumbchanger::mp4::error::Mp4Error;
use thumbchanger::mp4::finder::{self, find_covr};
use thumbchanger::mp4::planner::{
    moov_to_read, normalize_size_field, plan_moov, validate_top_level, Segment, Strategy,
    MAX_MOOV_BYTES,
};
use thumbchanger::mp4::rebuild::hdlr_box;
use thumbchanger::mp4::verify::{check_moov_pair, MoovExpectation};

fn bx(kind: &[u8; 4], body: &[u8]) -> Vec<u8> {
    with_header(FourCc::new(kind), 8, body)
}

fn hdr(kind: &[u8; 4], offset: u64, size: u64) -> BoxHeader {
    BoxHeader { kind: FourCc::new(kind), offset, size, header_len: 8 }
}

/// moov/trak/mdia/minf/stbl/stco with one entry, plus optional extra children.
fn moov_box(entry: u32, extra: &[u8]) -> Vec<u8> {
    let mut stco = vec![0, 0, 0, 0, 0, 0, 0, 1];
    stco.extend(entry.to_be_bytes());
    let mut body = bx(b"trak", &bx(b"mdia", &bx(b"minf", &bx(b"stbl", &bx(b"stco", &stco)))));
    body.extend_from_slice(extra);
    bx(b"moov", &body)
}

fn png_covr() -> Vec<u8> {
    covr_box(ImageKind::Png, b"\x89PNG\r\n\x1a\nfake")
}

fn udta_with_cover(payload_len: usize) -> Vec<u8> {
    let mut meta = vec![0, 0, 0, 0];
    meta.extend(hdlr_box());
    meta.extend(bx(b"ilst", &covr_box(ImageKind::Jpeg, &vec![0xAB; payload_len])));
    bx(b"udta", &bx(b"meta", &meta))
}

fn entry_of(moov_buf: &[u8]) -> u64 {
    let t = finder::chunk_tables(moov_buf).unwrap();
    t[0].get(moov_buf, 0)
}

#[test]
fn grown_moov_before_mdat_shifts_and_patches() {
    // ftyp(20) moov(60) mdat(72): the chunk offset points at the mdat payload.
    let moov_buf = moov_box(88, &[]);
    assert_eq!(moov_buf.len(), 60);
    let top = [hdr(b"ftyp", 0, 20), hdr(b"moov", 20, 60), hdr(b"mdat", 80, 72)];
    let covr = png_covr();
    assert_eq!(covr.len(), 36);
    let plan = plan_moov(&top, moov_buf, &covr).unwrap();
    // udta(8) + meta(8 + 4 + hdlr 33) + ilst(8) + covr(36)
    assert_eq!(plan.delta, 97);
    assert_eq!(plan.strategy, Strategy::ShiftAndPatch);
    assert_eq!(plan.patched_offsets, 1);
    assert_eq!(plan.rebuild.created, vec!["udta", "meta", "ilst"]);
    assert_eq!(plan.rebuild.removed_covr, 0);
    assert_eq!(plan.output_len, 20 + 157 + 72);
    assert_eq!(plan.covr_len, 36);
    assert_eq!(plan.old_moov, top[1]);
    assert_eq!(plan.segments.len(), 3);
    assert!(matches!(plan.segments[0], Segment::Copy { offset: 0, len: 20 }));
    assert!(matches!(plan.segments[2], Segment::Copy { offset: 80, len: 72 }));
    match &plan.segments[1] {
        Segment::Bytes(new_moov) => {
            assert_eq!(new_moov.len(), 157);
            assert_eq!(entry_of(new_moov), 88 + 97);
            let found = find_covr(new_moov).unwrap();
            assert_eq!(found.len(), 1);
            assert_eq!(&new_moov[found[0].range()], &covr[..]);
        }
        other => panic!("expected new moov bytes, got {other:?}"),
    }
}

#[test]
fn moov_last_is_written_as_is() {
    // ftyp(20) mdat(72) moov(60)
    let moov_buf = moov_box(28, &[]);
    let top = [hdr(b"ftyp", 0, 20), hdr(b"mdat", 20, 72), hdr(b"moov", 92, 60)];
    let plan = plan_moov(&top, moov_buf, &png_covr()).unwrap();
    assert_eq!(plan.strategy, Strategy::MoovLast);
    assert_eq!(plan.patched_offsets, 0);
    assert_eq!(plan.output_len, 20 + 72 + 157);
    assert!(matches!(plan.segments[1], Segment::Copy { offset: 20, len: 72 }));
    match &plan.segments[2] {
        Segment::Bytes(new_moov) => assert_eq!(entry_of(new_moov), 28),
        other => panic!("expected new moov bytes, got {other:?}"),
    }
}

#[test]
fn following_free_box_absorbs_growth() {
    // ftyp(20) moov(60) free(200) mdat(72)
    let moov_buf = moov_box(288, &[]);
    let top = [
        hdr(b"ftyp", 0, 20),
        hdr(b"moov", 20, 60),
        hdr(b"free", 80, 200),
        hdr(b"mdat", 280, 72),
    ];
    let plan = plan_moov(&top, moov_buf, &png_covr()).unwrap();
    assert_eq!(plan.strategy, Strategy::ResizeFree);
    assert_eq!(plan.output_len, 20 + 60 + 200 + 72);
    match &plan.segments[2] {
        Segment::Bytes(free) => {
            assert_eq!(free.len(), 103);
            assert_eq!(&free[0..8], &[0, 0, 0, 103, b'f', b'r', b'e', b'e']);
        }
        other => panic!("expected a resized free box, got {other:?}"),
    }
    assert!(matches!(plan.segments[3], Segment::Copy { offset: 280, len: 72 }));
}

#[test]
fn shrunk_moov_gets_a_free_box() {
    let old = moov_box(0, &udta_with_cover(500));
    let n = old.len() as u64;
    let mdat_at = 20 + n;
    let moov_buf = moov_box(0, &udta_with_cover(500));
    let top = [hdr(b"ftyp", 0, 20), hdr(b"moov", 20, n), hdr(b"mdat", mdat_at, 72)];
    let plan = plan_moov(&top, moov_buf, &png_covr()).unwrap();
    assert_eq!(plan.strategy, Strategy::InsertFree);
    assert_eq!(plan.rebuild.removed_covr, 1);
    assert!(plan.rebuild.created.is_empty());
    assert!(plan.delta <= -8);
    assert_eq!(plan.output_len, 20 + n + 72);
    match &plan.segments[2] {
        Segment::Bytes(free) => {
            assert_eq!(free.len() as i64, -plan.delta);
            assert_eq!(&free[4..8], b"free");
        }
        other => panic!("expected an inserted free box, got {other:?}"),
    }
    assert!(matches!(plan.segments[3], Segment::Copy { offset, len: 72 } if offset == mdat_at));
}

#[test]
fn same_size_cover_keeps_layout() {
    let covr = png_covr();
    let mut meta = vec![0, 0, 0, 0];
    meta.extend(hdlr_box());
    meta.extend(bx(b"ilst", &covr));
    let moov_buf = moov_box(0, &bx(b"udta", &bx(b"meta", &meta)));
    let n = moov_buf.len() as u64;
    let top = [hdr(b"moov", 0, n), hdr(b"mdat", n, 72)];
    let plan = plan_moov(&top, moov_buf.clone(), &covr).unwrap();
    assert_eq!(plan.strategy, Strategy::SameSize);
    assert_eq!(plan.delta, 0);
    match &plan.segments[0] {
        Segment::Bytes(b) => assert_eq!(b, &moov_buf),
        other => panic!("expected moov bytes, got {other:?}"),
    }
}

#[test]
fn plan_refusals() {
    let covr = png_covr();
    let moov_buf = moov_box(88, &[]);
    let top = [hdr(b"ftyp", 0, 20), hdr(b"moov", 20, 60), hdr(b"mdat", 80, 72)];
    // Buffer and header disagree.
    assert_eq!(
        plan_moov(&top, moov_buf[..59].to_vec(), &covr).unwrap_err(),
        Mp4Error::MoovBufferSize { buffer: 59, header: 60 }
    );
    // mvex inside moov.
    let frag = bx(b"moov", &bx(b"mvex", &[]));
    let ftop = [hdr(b"moov", 0, 16), hdr(b"mdat", 16, 8)];
    assert_eq!(plan_moov(&ftop, frag, &covr).unwrap_err(), Mp4Error::FragmentedMvex);
    // A chunk offset inside moov cannot be relocated.
    let inside = moov_box(30, &[]);
    assert_eq!(
        plan_moov(&top, inside, &covr).unwrap_err(),
        Mp4Error::ChunkOffsetInsideMoov { value: 30 }
    );
}

#[test]
fn top_level_validation() {
    let moov = hdr(b"moov", 0, 8);
    let mdat = hdr(b"mdat", 8, 8);
    assert_eq!(validate_top_level(&[moov, mdat]), Ok(()));
    assert_eq!(validate_top_level(&[mdat]), Err(Mp4Error::MoovCount { count: 0 }));
    assert_eq!(validate_top_level(&[moov, moov, mdat]), Err(Mp4Error::MoovCount { count: 2 }));
    assert_eq!(
        validate_top_level(&[moov, hdr(b"moof", 8, 8), mdat]),
        Err(Mp4Error::FragmentedTopLevel)
    );
    assert_eq!(
        validate_top_level(&[moov, hdr(b"sidx", 8, 8), mdat]),
        Err(Mp4Error::FragmentedTopLevel)
    );
    assert_eq!(validate_top_level(&[moov]), Err(Mp4Error::NoMdat));
}

#[test]
fn moov_to_read_checks_the_size_limit() {
    let mdat = hdr(b"mdat", 0, 8);
    let ok = hdr(b"moov", 8, MAX_MOOV_BYTES);
    assert_eq!(moov_to_read(&[mdat, ok]), Ok(ok));
    let big = hdr(b"moov", 8, MAX_MOOV_BYTES + 1);
    assert_eq!(moov_to_read(&[mdat, big]), Err(Mp4Error::MoovTooLarge { size: MAX_MOOV_BYTES + 1 }));
    assert_eq!(moov_to_read(&[mdat]), Err(Mp4Error::MoovCount { count: 0 }));
}

#[test]
fn size_zero_moov_header_is_made_explicit() {
    let mut buf = vec![0, 0, 0, 0, b'm', b'o', b'o', b'v', 1, 2];
    normalize_size_field(&mut buf, 10).unwrap();
    assert_eq!(&buf[0..4], &[0, 0, 0, 10]);
    let mut same = vec![0, 0, 0, 10, b'm', b'o', b'o', b'v', 1, 2];
    normalize_size_field(&mut same, 10).unwrap();
    assert_eq!(same, buf);
    let mut huge = vec![0, 0, 0, 0, b'm', b'o', b'o', b'v'];
    assert_eq!(
        normalize_size_field(&mut huge, 1 << 32),
        Err(Mp4Error::MoovSizeZeroTooLarge { size: 1 << 32 })
    );
    assert_eq!(&huge[0..4], &[0, 0, 0, 0]);
}

#[test]
fn planned_moov_passes_the_moov_comparison() {
    // Shifted: ftyp(20) moov(60) mdat(72).
    let moov_buf = moov_box(88, &[]);
    let top = [hdr(b"ftyp", 0, 20), hdr(b"moov", 20, 60), hdr(b"mdat", 80, 72)];
    let plan = plan_moov(&top, moov_buf.clone(), &png_covr()).unwrap();
    let want = MoovExpectation::from_plan(&plan);
    assert_eq!(want.shift, 97);
    assert_eq!(want.old_moov_end, 80);
    match &plan.segments[1] {
        Segment::Bytes(new_moov) => assert_eq!(check_moov_pair(&moov_buf, new_moov, &want), Ok(1)),
        other => panic!("expected new moov bytes, got {other:?}"),
    }
    // Moov last: nothing moves.
    let moov_buf = moov_box(28, &[]);
    let top = [hdr(b"ftyp", 0, 20), hdr(b"mdat", 20, 72), hdr(b"moov", 92, 60)];
    let plan = plan_moov(&top, moov_buf.clone(), &png_covr()).unwrap();
    let want = MoovExpectation::from_plan(&plan);
    assert_eq!(want.shift, 0);
    match &plan.segments[2] {
        Segment::Bytes(new_moov) => assert_eq!(check_moov_pair(&moov_buf, new_moov, &want), Ok(1)),
        other => panic!("expected new moov bytes, got {other:?}"),
    }
}
