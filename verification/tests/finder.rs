use thumbchanger::mp4::box_header::{with_header, BoxHeader, FourCc};
use thumbchanger::mp4::error::Mp4Error;
use thumbchanger::mp4::finder::{
    child_prefix_len, chunk_tables, container_children, find_covr, is_fragmented, moov_header,
};

fn bx(kind: &[u8; 4], body: &[u8]) -> Vec<u8> {
    with_header(FourCc::new(kind), 8, body)
}

#[test]
fn fragmented_moov_has_mvex() {
    let plain = bx(b"moov", &bx(b"mvhd", &[0; 4]));
    assert_eq!(is_fragmented(&plain), Ok(false));
    let mut body = bx(b"mvhd", &[0; 4]);
    body.extend(bx(b"mvex", &[]));
    let frag = bx(b"moov", &body);
    assert_eq!(is_fragmented(&frag), Ok(true));
}

#[test]
fn moov_header_refuses_other_boxes() {
    let free = bx(b"free", &[]);
    assert_eq!(
        moov_header(&free),
        Err(Mp4Error::NotMoov { kind: FourCc::new(b"free"), size: 8 })
    );
    assert_eq!(moov_header(&[]), Err(Mp4Error::EmptyMoov));
    let mut trailing = bx(b"moov", &[]);
    trailing.push(0);
    assert!(moov_header(&trailing).is_err());
}

#[test]
fn meta_prefix_is_sniffed() {
    let mut iso = vec![0, 0, 0, 0];
    iso.extend(bx(b"hdlr", &[0; 25]));
    let iso = bx(b"meta", &iso);
    let h = BoxHeader::parse(&iso, 0, iso.len()).unwrap().unwrap();
    assert_eq!(child_prefix_len(&iso, &h), 4);
    assert_eq!(container_children(&iso, &h).unwrap().len(), 1);

    let qt = bx(b"meta", &bx(b"hdlr", &[0; 25]));
    let h = BoxHeader::parse(&qt, 0, qt.len()).unwrap().unwrap();
    assert_eq!(child_prefix_len(&qt, &h), 0);
    assert_eq!(container_children(&qt, &h).unwrap().len(), 1);
}

#[test]
fn chunk_table_set_then_get() {
    let mut s = vec![0, 0, 0, 0, 0, 0, 0, 2];
    s.extend(7u32.to_be_bytes());
    s.extend(9u32.to_be_bytes());
    let mut buf = bx(b"moov", &bx(b"trak", &bx(b"mdia", &bx(b"minf", &bx(b"stbl", &bx(b"stco", &s))))));
    let t = chunk_tables(&buf).unwrap();
    assert_eq!(t.len(), 1);
    assert_eq!(t[0].count, 2);
    assert_eq!(t[0].entry_len(), 4);
    t[0].set(&mut buf, 1, 1234).unwrap();
    assert_eq!(t[0].get(&buf, 1), 1234);
    assert_eq!(t[0].get(&buf, 0), 7);
    assert_eq!(t[0].set(&mut buf, 0, 1 << 32), Err(Mp4Error::StcoOverflow { value: 1 << 32 }));
    assert_eq!(t[0].get(&buf, 0), 7);
}

#[test]
fn chunk_table_checks_its_box() {
    // declares 3 entries, holds one
    let mut s = vec![0, 0, 0, 0, 0, 0, 0, 3];
    s.extend(7u32.to_be_bytes());
    let buf = bx(b"moov", &bx(b"trak", &bx(b"mdia", &bx(b"minf", &bx(b"stbl", &bx(b"stco", &s))))));
    assert_eq!(
        chunk_tables(&buf).unwrap_err(),
        Mp4Error::TableTooSmall { kind: FourCc::new(b"stco"), count: 3 }
    );
    let buf = bx(b"moov", &bx(b"trak", &bx(b"mdia", &bx(b"minf", &bx(b"stbl", &bx(b"co64", &[0; 4]))))));
    assert_eq!(chunk_tables(&buf).unwrap_err(), Mp4Error::TruncatedTable { kind: FourCc::new(b"co64") });
}

#[test]
fn find_covr_walks_only_the_cover_path() {
    let covr = bx(b"covr", &[1, 2, 3]);
    let mut meta = vec![0, 0, 0, 0];
    meta.extend(bx(b"ilst", &covr));
    let mut body = bx(b"covr", &[9]); // not under udta/meta/ilst
    body.extend(bx(b"udta", &bx(b"meta", &meta)));
    let buf = bx(b"moov", &body);
    let found = find_covr(&buf).unwrap();
    assert_eq!(found.len(), 1);
    assert_eq!(&buf[found[0].range()], &covr[..]);
}

#[test]
fn found_boxes_come_in_document_order() {
    // Two traks, each with one table; two cover items in one ilst.
    let stco = |entry: u32| {
        let mut b = vec![0, 0, 0, 0, 0, 0, 0, 1];
        b.extend(entry.to_be_bytes());
        bx(b"stco", &b)
    };
    let trak = |entry: u32| bx(b"trak", &bx(b"mdia", &bx(b"minf", &bx(b"stbl", &stco(entry)))));
    let cover = |p: &[u8]| bx(b"covr", &bx(b"data", p));
    let mut ilst = cover(b"one");
    ilst.extend(cover(b"second"));
    let mut meta = vec![0, 0, 0, 0];
    meta.extend(bx(b"hdlr", &[0; 25]));
    meta.extend(bx(b"ilst", &ilst));
    let mut body = trak(100);
    body.extend(trak(200));
    body.extend(bx(b"udta", &bx(b"meta", &meta)));
    let moov = bx(b"moov", &body);

    let tables = chunk_tables(&moov).unwrap();
    assert_eq!(tables.len(), 2);
    assert!(tables[0].entries_offset + 4 * tables[0].count <= tables[1].entries_offset);
    assert_eq!((tables[0].get(&moov, 0), tables[1].get(&moov, 0)), (100, 200));

    let covers = find_covr(&moov).unwrap();
    assert_eq!(covers.len(), 2);
    assert!(covers[0].end() <= covers[1].offset);
    assert!(covers[1].end() <= moov.len() as u64);
    assert_eq!(&moov[covers[0].range()], &cover(b"one")[..]);
}
