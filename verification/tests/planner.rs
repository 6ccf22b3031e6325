use thumbchanger::mp4::box_header::{with_header, BoxHeader, FourCc};
use thumbchanger::mp4::finder::{self, free, moov};
use thumbchanger::mp4::planner::{patch_chunk_offsets, resized_free};

fn bx(kind: &[u8; 4], body: &[u8]) -> Vec<u8> {
    with_header(FourCc::new(kind), 8, body)
}

fn moov_with_tables(stco: &[u32], co64: &[u64]) -> Vec<u8> {
    let mut s = vec![0, 0, 0, 0];
    s.extend((stco.len() as u32).to_be_bytes());
    for v in stco {
        s.extend(v.to_be_bytes());
    }
    let mut c = vec![0, 0, 0, 0];
    c.extend((co64.len() as u32).to_be_bytes());
    for v in co64 {
        c.extend(v.to_be_bytes());
    }
    let mut stbl = bx(b"stco", &s);
    stbl.extend(bx(b"co64", &c));
    let trak = bx(b"trak", &bx(b"mdia", &bx(b"minf", &bx(b"stbl", &stbl))));
    bx(b"moov", &trak)
}

#[test]
fn patches_only_offsets_past_old_moov() {
    let mut moov_buf = moov_with_tables(&[10, 1000, 5000], &[20, 1000, 1 << 33]);
    let old = BoxHeader { kind: moov(), offset: 100, size: 900, header_len: 8 };
    let n = patch_chunk_offsets(&mut moov_buf, &old, 50).unwrap();
    assert_eq!(n, 4);
    let t = finder::chunk_tables(&moov_buf).unwrap();
    assert_eq!([t[0].get(&moov_buf, 0), t[0].get(&moov_buf, 1), t[0].get(&moov_buf, 2)], [10, 1050, 5050]);
    assert_eq!(
        [t[1].get(&moov_buf, 0), t[1].get(&moov_buf, 1), t[1].get(&moov_buf, 2)],
        [20, 1050, (1 << 33) + 50]
    );
}

#[test]
fn rejects_offsets_inside_moov_and_stco_overflow() {
    let mut moov_buf = moov_with_tables(&[500], &[]);
    let old = BoxHeader { kind: moov(), offset: 100, size: 900, header_len: 8 };
    assert!(patch_chunk_offsets(&mut moov_buf, &old, 8).is_err());

    let mut moov_buf = moov_with_tables(&[u32::MAX - 4], &[]);
    let old = BoxHeader { kind: moov(), offset: 0, size: 100, header_len: 8 };
    assert!(patch_chunk_offsets(&mut moov_buf, &old, 8).is_err());
}

#[test]
fn resized_free_bounds() {
    let f = BoxHeader { kind: free(), offset: 0, size: 8, header_len: 8 };
    assert_eq!(resized_free(&f, 0), Some(8));
    assert_eq!(resized_free(&f, 1), None);
    assert_eq!(resized_free(&f, -100), Some(108));
    let f = BoxHeader { kind: free(), offset: 0, size: 1000, header_len: 8 };
    assert_eq!(resized_free(&f, 992), Some(8));
    assert_eq!(resized_free(&f, 993), None);
}
