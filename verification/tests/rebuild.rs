use thumbchanger::mp4::box_header::{with_header, FourCc};
use thumbchanger::mp4::error::Mp4Error;
use thumbchanger::mp4::finder::{chunk_tables, find_covr, moov, moov_header};
use thumbchanger::mp4::verify::{check_moov_pair, MoovExpectation};
use thumbchanger::mp4::rebuild::{hdlr_box, replace_cover};

fn bx(kind: &[u8; 4], body: &[u8]) -> Vec<u8> {
    with_header(FourCc::new(kind), 8, body)
}

fn covr(payload: &[u8]) -> Vec<u8> {
    let mut d = vec![0, 0, 0, 13, 0, 0, 0, 0];
    d.extend_from_slice(payload);
    bx(b"covr", &bx(b"data", &d))
}

#[test]
fn replaces_existing_covr_and_keeps_siblings() {
    let too = bx(b"\xa9too", &bx(b"data", b"\0\0\0\x01\0\0\0\0lavf"));
    let mut meta_body = vec![0, 0, 0, 0];
    meta_body.extend(hdlr_box());
    let mut ilst_body = too.clone();
    ilst_body.extend(covr(b"OLDOLDOLD"));
    ilst_body.extend(covr(b"SECOND"));
    meta_body.extend(bx(b"ilst", &ilst_body));
    let mvhd = bx(b"mvhd", &[7; 100]);
    let trak = bx(b"trak", &[9; 50]);
    let mut moov_body = mvhd.clone();
    moov_body.extend(&trak);
    moov_body.extend(bx(b"udta", &bx(b"meta", &meta_body)));
    let moov_buf = bx(b"moov", &moov_body);

    let new = covr(b"NEW");
    let (out, stats) = replace_cover(&moov_buf, &new).unwrap();
    assert_eq!(stats.removed_covr, 2);
    assert!(stats.created.is_empty());

    let hdr = moov_header(&out).unwrap();
    assert_eq!(hdr.kind, moov());
    assert_eq!(out.len(), moov_buf.len() - covr(b"OLDOLDOLD").len() - covr(b"SECOND").len() + new.len());
    // mvhd + trak bytes untouched, at the same place.
    assert_eq!(&out[8..8 + mvhd.len() + trak.len()], &moov_buf[8..8 + mvhd.len() + trak.len()]);
    let found = find_covr(&out).unwrap();
    assert_eq!(found.len(), 1);
    assert_eq!(&out[found[0].range()], &new[..]);
    // ©too preserved before covr.
    assert!(out.windows(too.len()).any(|w| w == &too[..]));
}

#[test]
fn creates_missing_chain() {
    let moov_buf = bx(b"moov", &bx(b"mvhd", &[1; 20]));
    let new = covr(b"NEW");
    let (out, stats) = replace_cover(&moov_buf, &new).unwrap();
    assert_eq!(stats.created, vec!["udta", "meta", "ilst"]);
    let found = find_covr(&out).unwrap();
    assert_eq!(found.len(), 1);
    assert_eq!(&out[found[0].range()], &new[..]);
    // udta > meta > (vf + hdlr + ilst > covr)
    let expect = 8 + 8 + 4 + hdlr_box().len() + 8 + new.len();
    assert_eq!(out.len(), moov_buf.len() + expect);
}

#[test]
fn handles_quicktime_meta_without_version() {
    // meta whose payload starts directly with hdlr (no 4-byte prefix).
    let mut meta_body = hdlr_box();
    meta_body.extend(bx(b"ilst", &[]));
    let moov_buf = bx(b"moov", &bx(b"udta", &bx(b"meta", &meta_body)));
    let new = covr(b"X");
    let (out, stats) = replace_cover(&moov_buf, &new).unwrap();
    assert!(stats.created.is_empty());
    assert_eq!(find_covr(&out).unwrap().len(), 1);
    assert_eq!(out.len(), moov_buf.len() + new.len());
}

#[test]
fn hdlr_box_is_33_bytes_of_mdir_appl() {
    let h = hdlr_box();
    assert_eq!(h.len(), 33);
    assert_eq!(&h[0..8], &[0, 0, 0, 33, b'h', b'd', b'l', b'r']);
    assert_eq!(&h[16..24], b"mdirappl");
}

#[test]
fn meta_without_hdlr_gets_one() {
    // udta > meta (FullBox, no hdlr) > ilst
    let mut meta_body = vec![0, 0, 0, 0];
    meta_body.extend(bx(b"ilst", &[]));
    let moov_buf = bx(b"moov", &bx(b"udta", &bx(b"meta", &meta_body)));
    let new = covr(b"Y");
    let (out, stats) = replace_cover(&moov_buf, &new).unwrap();
    assert_eq!(stats.created, vec!["hdlr"]);
    assert_eq!(out.len(), moov_buf.len() + hdlr_box().len() + new.len());
    assert_eq!(find_covr(&out).unwrap().len(), 1);
}

#[test]
fn not_a_moov_is_refused() {
    let buf = bx(b"free", &[0; 4]);
    assert!(replace_cover(&buf, &covr(b"Z")).is_err());
    assert!(replace_cover(&[], &covr(b"Z")).is_err());
}

fn trak_with(stco: &[u32]) -> Vec<u8> {
    let mut s = vec![0, 0, 0, 0];
    s.extend((stco.len() as u32).to_be_bytes());
    for v in stco {
        s.extend(v.to_be_bytes());
    }
    bx(b"trak", &bx(b"mdia", &bx(b"minf", &bx(b"stbl", &bx(b"stco", &s)))))
}

#[test]
fn tables_move_with_their_trak_but_keep_their_values() {
    // udta before trak: the new cover moves the trak, not its offsets.
    let mut meta_body = vec![0, 0, 0, 0];
    meta_body.extend(hdlr_box());
    meta_body.extend(bx(b"ilst", &covr(b"OLD")));
    let mut moov_body = bx(b"udta", &bx(b"meta", &meta_body));
    moov_body.extend(trak_with(&[10, 1000, 70000]));
    let moov_buf = bx(b"moov", &moov_body);
    let new = covr(&[0x55; 40]);
    let (out, _) = replace_cover(&moov_buf, &new).unwrap();
    let before = chunk_tables(&moov_buf).unwrap();
    let after = chunk_tables(&out).unwrap();
    assert_eq!(after.len(), 1);
    assert_eq!(after[0].entries_offset, before[0].entries_offset + 37);
    for i in 0..3 {
        assert_eq!(after[0].get(&out, i), before[0].get(&moov_buf, i));
    }
    let want = MoovExpectation { covr_len: new.len(), shift: 0, old_moov_end: 500 };
    assert_eq!(check_moov_pair(&moov_buf, &out, &want), Ok(3));
}

#[test]
fn meta_too_short_for_its_version_is_refused() {
    let moov_buf = bx(b"moov", &bx(b"udta", &bx(b"meta", &[])));
    assert_eq!(
        replace_cover(&moov_buf, &covr(b"X")).unwrap_err(),
        Mp4Error::TruncatedPrefix { kind: FourCc::new(b"meta"), offset: 16 }
    );
}

#[test]
fn later_udta_without_cover_leaves_one_cover() {
    // A second `udta` with its own `meta`/`ilst`, holding a title but no cover.
    let too = bx(b"\xa9too", &bx(b"data", b"\0\0\0\x01\0\0\0\0lavf"));
    let mut meta_body = vec![0, 0, 0, 0];
    meta_body.extend(hdlr_box());
    meta_body.extend(bx(b"ilst", &too));
    let second = bx(b"udta", &bx(b"meta", &meta_body));
    let mut moov_body = bx(b"mvhd", &[7; 100]);
    moov_body.extend(bx(b"udta", &bx(b"\xa9xyz", b"+1+2/")));
    moov_body.extend(&second);
    let moov_buf = bx(b"moov", &moov_body);

    let new = covr(b"NEW");
    let (out, stats) = replace_cover(&moov_buf, &new).unwrap();
    assert_eq!(stats.removed_covr, 0);
    assert_eq!(stats.created, vec!["meta", "ilst"]);
    let found = find_covr(&out).unwrap();
    assert_eq!(found.len(), 1);
    assert_eq!(&out[found[0].range()], &new[..]);
    // The second `udta` is copied unchanged, at the end.
    assert_eq!(&out[out.len() - second.len()..], &second[..]);
}

#[test]
fn size_zero_last_children_are_kept_or_dropped_cleanly() {
    // moov: mvhd, udta/meta/ilst with an old cover, then a trailing box in
    // the `size == 0` form that runs to the end of moov.
    let mut meta_body = vec![0, 0, 0, 0];
    meta_body.extend(hdlr_box());
    meta_body.extend(bx(b"ilst", &covr(b"OLD")));
    let mut tail = vec![0, 0, 0, 0];
    tail.extend_from_slice(b"free");
    tail.extend_from_slice(&[5; 12]);
    let mut moov_body = bx(b"mvhd", &[7; 100]);
    moov_body.extend(bx(b"udta", &bx(b"meta", &meta_body)));
    moov_body.extend(&tail);
    let moov_buf = bx(b"moov", &moov_body);

    let new = covr(b"NEWER");
    let (out, stats) = replace_cover(&moov_buf, &new).unwrap();
    assert_eq!(stats.removed_covr, 1);
    let found = find_covr(&out).unwrap();
    assert_eq!(found.len(), 1);
    assert_eq!(&out[found[0].range()], &new[..]);
    // The trailing box is still last, still in the `size == 0` form.
    assert_eq!(&out[out.len() - tail.len()..], &tail[..]);

    // An ilst whose last item, an old cover, is in the `size == 0` form:
    // it is dropped and the new cover appended.
    let mut old_cover = vec![0, 0, 0, 0];
    old_cover.extend_from_slice(b"covr");
    old_cover.extend_from_slice(b"junk");
    let mut meta_body = vec![0, 0, 0, 0];
    meta_body.extend(hdlr_box());
    meta_body.extend(bx(b"ilst", &old_cover));
    let moov_buf = bx(b"moov", &bx(b"udta", &bx(b"meta", &meta_body)));
    let (out, stats) = replace_cover(&moov_buf, &new).unwrap();
    assert_eq!(stats.removed_covr, 1);
    let found = find_covr(&out).unwrap();
    assert_eq!(found.len(), 1);
    assert_eq!(&out[found[0].range()], &new[..]);
}
