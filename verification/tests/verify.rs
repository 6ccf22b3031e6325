use thumbchanger::mp4::box_header::{with_header, FourCc};
use thumbchanger::mp4::error::Mp4Error;
use thumbchanger::mp4::box_header::BoxHeader;
use thumbchanger::mp4::verify::{
    check_moov_pair, fnv1a_update, mdat_boxes, mdat_hash_step, mdat_layout, mdat_pair, MoovExpectation,
    MdatPair, FNV1A_SEED,
};

fn bx(kind: &[u8; 4], body: &[u8]) -> Vec<u8> {
    with_header(FourCc::new(kind), 8, body)
}

fn moov_with(stco: &[u32], covr_payload: Option<&[u8]>) -> Vec<u8> {
    let mut s = vec![0, 0, 0, 0];
    s.extend((stco.len() as u32).to_be_bytes());
    for v in stco {
        s.extend(v.to_be_bytes());
    }
    let mut body = bx(b"trak", &bx(b"mdia", &bx(b"minf", &bx(b"stbl", &bx(b"stco", &s)))));
    if let Some(p) = covr_payload {
        let mut meta = vec![0, 0, 0, 0];
        meta.extend(bx(b"ilst", &bx(b"covr", p)));
        body.extend(bx(b"udta", &bx(b"meta", &meta)));
    }
    bx(b"moov", &body)
}

#[test]
fn fnv1a_known_values() {
    assert_eq!(fnv1a_update(FNV1A_SEED, b""), 0xcbf29ce484222325);
    assert_eq!(fnv1a_update(FNV1A_SEED, b"a"), 0xaf63dc4c8601ec8c);
    assert_eq!(fnv1a_update(FNV1A_SEED, b"foobar"), 0x85944171f73967e8);
}

#[test]
fn fnv1a_in_chunks_equals_whole() {
    let whole = fnv1a_update(FNV1A_SEED, b"hello world");
    let part = fnv1a_update(fnv1a_update(FNV1A_SEED, b"hello "), b"world");
    assert_eq!(whole, part);
}

#[test]
fn moov_pair_with_shift_passes() {
    let input = moov_with(&[10, 1000], None);
    let output = moov_with(&[10, 1050], Some(b"12345678"));
    let want = MoovExpectation { covr_len: 16, shift: 50, old_moov_end: 1000 };
    assert_eq!(check_moov_pair(&input, &output, &want), Ok(2));
}

#[test]
fn moov_pair_reports_each_failure() {
    let input = moov_with(&[10, 1000], None);
    let want = MoovExpectation { covr_len: 16, shift: 50, old_moov_end: 1000 };
    // no cover at all
    assert_eq!(check_moov_pair(&input, &input, &want), Err(Mp4Error::CovrCount { count: 0 }));
    // wrong cover size
    let output = moov_with(&[10, 1050], Some(b"1234"));
    assert_eq!(
        check_moov_pair(&input, &output, &want),
        Err(Mp4Error::CovrSize { size: 12, expected_len: 16 })
    );
    // offset not moved
    let output = moov_with(&[10, 1000], Some(b"12345678"));
    assert_eq!(
        check_moov_pair(&input, &output, &want),
        Err(Mp4Error::ChunkOffsetMismatch { index: 1, found: 1000, expected: 1050, input: 1000 })
    );
    // table shape changed
    let output = moov_with(&[10], Some(b"12345678"));
    assert_eq!(check_moov_pair(&input, &output, &want), Err(Mp4Error::TableShapeChanged));
}

#[test]
fn mdat_boxes_are_paired_in_order() {
    let h = |kind: &[u8; 4], offset: u64, size: u64, header_len: u8| BoxHeader {
        kind: FourCc::new(kind),
        offset,
        size,
        header_len,
    };
    let top = [h(b"ftyp", 0, 20, 8), h(b"mdat", 20, 100, 8), h(b"moov", 120, 50, 8), h(b"mdat", 170, 40, 16)];
    let m = mdat_boxes(&top);
    assert_eq!(m, vec![top[1], top[3]]);
    let moved = h(b"mdat", 60, 100, 8);
    let pair = mdat_pair(&top[1], &moved).unwrap();
    assert_eq!((pair.input_offset, pair.input_payload, pair.output_payload, pair.len), (20, 28, 68, 92));
    let pair = mdat_pair(&top[3], &h(b"mdat", 170, 40, 16)).unwrap();
    assert_eq!((pair.input_payload, pair.len), (186, 24));
    assert_eq!(
        mdat_pair(&top[1], &h(b"mdat", 20, 90, 8)).unwrap_err(),
        Mp4Error::MdatSizeChanged { before: 100, after: 90 }
    );
    assert_eq!(
        mdat_pair(&top[1], &h(b"mdat", 20, 100, 16)).unwrap_err(),
        Mp4Error::MdatSizeChanged { before: 100, after: 100 }
    );
}

#[test]
fn mdat_layout_checks_length_count_and_sizes() {
    let h = |kind: &[u8; 4], offset: u64, size: u64| BoxHeader {
        kind: FourCc::new(kind),
        offset,
        size,
        header_len: 8,
    };
    let input = [h(b"ftyp", 0, 20), h(b"mdat", 20, 100), h(b"moov", 120, 50), h(b"mdat", 170, 40)];
    // Grown moov before both mdat boxes: they move by 10.
    let output = [h(b"ftyp", 0, 20), h(b"moov", 20, 60), h(b"mdat", 80, 100), h(b"mdat", 180, 40)];
    assert_eq!(
        mdat_layout(&input, &output, 219, 220).err(),
        Some(Mp4Error::OutputLength { found: 219, expected: 220 })
    );
    assert_eq!(
        mdat_layout(&input, &output[..3], 220, 220).err(),
        Some(Mp4Error::MdatCountChanged { before: 2, after: 1 })
    );
    let l = mdat_layout(&input, &output, 220, 220).unwrap();
    assert_eq!(l.size_change, None);
    assert_eq!(l.pairs.len(), 2);
    assert_eq!((l.pairs[0].input_payload, l.pairs[0].output_payload, l.pairs[0].len), (28, 88, 92));
    assert_eq!((l.pairs[1].input_payload, l.pairs[1].output_payload, l.pairs[1].len), (178, 188, 32));
    // The second mdat shrank: the first pair is still handed out, then the change.
    let shrunk = [h(b"ftyp", 0, 20), h(b"moov", 20, 60), h(b"mdat", 80, 100), h(b"mdat", 180, 30)];
    let l = mdat_layout(&input, &shrunk, 220, 220).unwrap();
    assert_eq!(l.pairs.len(), 1);
    assert_eq!(l.size_change, Some(Mp4Error::MdatSizeChanged { before: 40, after: 30 }));
}

#[test]
fn mdat_hash_step_adds_length_or_reports_the_offset() {
    let pair = MdatPair { input_offset: 20, input_payload: 28, output_payload: 88, len: 92 };
    assert_eq!(mdat_hash_step(8, &pair, 0xABCD, 0xABCD), Ok(100));
    assert_eq!(mdat_hash_step(8, &pair, 0xABCD, 0xABCE), Err(Mp4Error::MdatPayloadChanged { offset: 20 }));
}
