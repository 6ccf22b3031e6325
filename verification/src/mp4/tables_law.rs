//! Why replacing the cover keeps every chunk offset table: the boxes on the
//! way to the tables are copied whole, and what a walk finds in a box
//! depends only on the box's own bytes, wherever it sits.

use vstd::prelude::*;

use super::be::{be32, be64, lemma_be32_window};
use super::cover_law::law_replace_cover_single_cover;
use super::box_header::{kind_at, lemma_parse_ok, min, spec_children, spec_parse, spec_read, BoxHeader};
use super::cover_law::{
    after_first, cover_path_clean, holds_no_cover, kid_bytes, lemma_children_parsed, lemma_cover_level,
    lemma_level_facts, lemma_level_placed, lemma_rebuilt_body, lemma_rebuilt_holds_cover, level_hdp, level_j,
    level_kids, level_ps, level_pre, level_x,
};
use super::error::Mp4Error;
use super::pieces::{
    flat, header_of, headers_of, lemma_flat_at, lemma_flat_concat, lemma_headers_concat,
    lemma_headers_kinds, lemma_parsed_one_box, one_box,
};
use super::planner::{shifted, spec_patch};
use super::shift_law::{law_patch_moves_offsets, patched_value};
use super::rebuild::{growth, lemma_first_of, lemma_rebuild_len, spec_replace_cover};
use super::verify::{first_mismatch, spec_check_moov_pair, tables_check, MoovExpectation};
use super::box_header::FourCc;
use super::finder::{
    covers_path, covr, descend, descend_list, gathered_ok, lemma_children_ok,
    lemma_container_children_ok, lemma_descend_ok, lemma_descend_placed, lemma_moov_header_ok, meta,
    lemma_chunk_tables_ok, mdia, minf, moov, spec_chunk_tables, spec_find_covr, spec_moov_header, spec_prefix_len, stbl, tables_path, trak,
    udta, spec_container_children, table_check,
    tables_in, table_of, then_append, co64, ChunkTable, Gather,
};

verus! {

/// `h` moved by `d` bytes.
pub open spec fn moved(h: BoxHeader, d: int) -> BoxHeader {
    BoxHeader { offset: (h.offset + d) as u64, ..h }
}

/// Each of `s` moved by `d` bytes.
pub open spec fn moved_all(s: Seq<BoxHeader>, d: int) -> Seq<BoxHeader> {
    s.map_values(|h: BoxHeader| moved(h, d))
}

/// A header parse depends only on the bytes of its region.
pub proof fn lemma_parse_moved(b1: Seq<u8>, p1: int, l1: int, b2: Seq<u8>, d: int)
    requires
        0 <= p1 <= l1 <= b1.len(),
        0 <= p1 + d,
        l1 + d <= b2.len(),
        b1.len() <= u64::MAX,
        b2.len() <= u64::MAX,
        b1.subrange(p1, l1) == b2.subrange(p1 + d, l1 + d),
    ensures
        (spec_parse(b1, p1, l1) is Ok) == (spec_parse(b2, p1 + d, l1 + d) is Ok),
        spec_parse(b1, p1, l1) == Ok::<_, Mp4Error>(None::<BoxHeader>) ==> spec_parse(b2, p1 + d, l1 + d)
            == Ok::<_, Mp4Error>(None::<BoxHeader>),
        spec_parse(b1, p1, l1) matches Ok(Some(h)) ==> spec_parse(b2, p1 + d, l1 + d) == Ok::<
            _,
            Mp4Error,
        >(Some(moved(h, d))),
{
    assert(min(l1, b1.len() as int) == l1);
    assert(min(l1 + d, b2.len() as int) == l1 + d);
    let data = b1.subrange(p1, l1);
    if p1 < l1 {
        let r1 = spec_read(data, p1 as u64, l1 as u64);
        let r2 = spec_read(data, (p1 + d) as u64, (l1 + d) as u64);
        match r1 {
            Ok(Some(h)) => {
                assert(r2 == Ok::<_, Mp4Error>(Some(moved(h, d))));
            },
            _ => {},
        }
    }
}

/// A sibling scan depends only on the bytes of its region.
pub proof fn lemma_children_moved(b1: Seq<u8>, p1: int, e1: int, b2: Seq<u8>, d: int)
    requires
        0 <= p1 <= e1 <= b1.len(),
        0 <= p1 + d,
        e1 + d <= b2.len(),
        b1.len() <= u64::MAX,
        b2.len() <= u64::MAX,
        b1.subrange(p1, e1) == b2.subrange(p1 + d, e1 + d),
    ensures
        (spec_children(b1, p1, e1) is Ok) == (spec_children(b2, p1 + d, e1 + d) is Ok),
        spec_children(b1, p1, e1) matches Ok(s) ==> spec_children(b2, p1 + d, e1 + d) == Ok::<
            _,
            Mp4Error,
        >(moved_all(s, d)),
    decreases e1 - p1,
{
    lemma_parse_moved(b1, p1, e1, b2, d);
    lemma_parse_ok(b1, p1, e1);
    match spec_parse(b1, p1, e1) {
        Ok(Some(h)) => {
            let q = h.end_pos();
            assert(b1.subrange(q, e1) =~= b2.subrange(q + d, e1 + d)) by {
                assert forall|k: int| 0 <= k < e1 - q implies b1.subrange(q, e1)[k] == b2.subrange(
                    q + d,
                    e1 + d,
                )[k] by {
                    assert(b1[q + k] == b1.subrange(p1, e1)[q + k - p1]);
                    assert(b2[q + d + k] == b2.subrange(p1 + d, e1 + d)[q + k - p1]);
                }
            }
            lemma_children_moved(b1, q, e1, b2, d);
            assert(moved(h, d).end_pos() == q + d);
            match spec_children(b1, q, e1) {
                Ok(rest) => {
                    assert(moved_all(seq![h] + rest, d) =~= seq![moved(h, d)] + moved_all(rest, d));
                },
                Err(_) => {},
            }
        },
        Ok(None) => {
            assert(moved_all(Seq::<BoxHeader>::empty(), d) =~= Seq::<BoxHeader>::empty());
        },
        Err(_) => {},
    }
}

/// Two buffers that agree on `[lo, hi)` of the first, moved by `d`, agree
/// on every smaller window of it.
pub proof fn lemma_window_moved(b1: Seq<u8>, b2: Seq<u8>, lo: int, hi: int, d: int, a: int, c: int)
    requires
        0 <= lo <= a <= c <= hi <= b1.len(),
        0 <= lo + d,
        hi + d <= b2.len(),
        b1.subrange(lo, hi) == b2.subrange(lo + d, hi + d),
    ensures
        b1.subrange(a, c) == b2.subrange(a + d, c + d),
        forall|x: int| a <= x < c ==> b1[x] == b2[x + d],
{
    assert forall|x: int| a <= x < c implies b1[x] == b2[x + d] by {
        assert(b1[x] == b1.subrange(lo, hi)[x - lo]);
        assert(b2[x + d] == b2.subrange(lo + d, hi + d)[x - lo]);
    }
    assert(b1.subrange(a, c) =~= b2.subrange(a + d, c + d));
}

/// Checking and keeping the table boxes among siblings copied whole with
/// their parent gives the same tables, moved.
pub proof fn lemma_tables_in_moved(b1: Seq<u8>, kids: Seq<BoxHeader>, b2: Seq<u8>, d: int, lo: int, hi: int)
    requires
        0 <= lo <= hi <= b1.len(),
        0 <= lo + d,
        hi + d <= b2.len(),
        b2.len() <= u64::MAX,
        b1.subrange(lo, hi) == b2.subrange(lo + d, hi + d),
        forall|i: int|
            0 <= i < kids.len() ==> (#[trigger] kids[i]).wf() && lo <= kids[i].offset
                && kids[i].end_pos() <= hi,
    ensures
        tables_in(b2, moved_all(kids, d)) == match tables_in(b1, kids) {
            Ok(s) => Ok::<_, Mp4Error>(moved_all(s, d)),
            Err(e) => Err(e),
        },
    decreases kids.len(),
{
    if kids.len() == 0 {
        assert(moved_all(kids, d) =~= Seq::<BoxHeader>::empty());
        assert(moved_all(Seq::<BoxHeader>::empty(), d) =~= Seq::<BoxHeader>::empty());
    } else {
        let k = kids[0];
        let rest = kids.drop_first();
        assert(moved_all(kids, d).drop_first() =~= moved_all(rest, d));
        assert(moved_all(kids, d)[0] == moved(k, d));
        assert forall|i: int| 0 <= i < rest.len() implies (#[trigger] rest[i]).wf() && lo
            <= rest[i].offset && rest[i].end_pos() <= hi by {
            assert(rest[i] == kids[i + 1]);
        }
        lemma_tables_in_moved(b1, rest, b2, d, lo, hi);
        let p = k.payload();
        assert(moved(k, d).payload() == p + d);
        assert(moved(k, d).end_pos() == k.end_pos() + d);
        if k.end_pos() - p >= 8 {
            lemma_window_moved(b1, b2, lo, hi, d, p + 4, p + 8);
            assert(be32(b2, p + d + 4) == be32(b1, p + 4)) by {
                assert(b1[p + 4] == b2[p + 4 + d]);
                assert(b1[p + 5] == b2[p + 5 + d]);
                assert(b1[p + 6] == b2[p + 6 + d]);
                assert(b1[p + 7] == b2[p + 7 + d]);
            }
        }
        assert(table_check(b2, moved(k, d)) == table_check(b1, k));
        match tables_in(b1, rest) {
            Ok(r) => {
                assert(moved_all(seq![k] + r, d) =~= seq![moved(k, d)] + moved_all(r, d));
            },
            Err(_) => {},
        }
    }
}

/// No type on `path` is `meta`.
pub open spec fn plain_path(path: Seq<FourCc>) -> bool {
    forall|i: int| 0 <= i < path.len() ==> path[i] != meta()
}

/// A walk for chunk tables from a box copied whole finds the same table
/// boxes, moved with it.
pub proof fn lemma_descend_moved(b1: Seq<u8>, h: BoxHeader, path: Seq<FourCc>, b2: Seq<u8>, d: int)
    requires
        h.wf(),
        h.end_pos() <= b1.len(),
        0 <= h.offset + d,
        h.end_pos() + d <= b2.len(),
        b1.len() <= u64::MAX,
        b2.len() <= u64::MAX,
        b1.subrange(h.offset as int, h.end_pos()) == b2.subrange(h.offset + d, h.end_pos() + d),
        h.kind != meta(),
        plain_path(path),
    ensures
        descend(b2, moved(h, d), path, Gather::ChunkTables) == match descend(
            b1,
            h,
            path,
            Gather::ChunkTables,
        ) {
            Ok(s) => Ok::<_, Mp4Error>(moved_all(s, d)),
            Err(_) => descend(b2, moved(h, d), path, Gather::ChunkTables),
        },
        (descend(b1, h, path, Gather::ChunkTables) is Ok) == (descend(
            b2,
            moved(h, d),
            path,
            Gather::ChunkTables,
        ) is Ok),
    decreases path.len() * 2 + 1, 0nat,
{
    let h2 = moved(h, d);
    let p = h.payload();
    let e = h.end_pos();
    assert(h2.payload() == p + d);
    assert(h2.end_pos() == e + d);
    lemma_window_moved(b1, b2, h.offset as int, e, d, p, e);
    lemma_children_moved(b1, p, e, b2, d);
    lemma_container_children_ok(b1, h);
    match spec_container_children(b1, h) {
        Ok(kids) => {
            if path.len() == 0 {
                lemma_tables_in_moved(b1, kids, b2, d, p, e);
            } else {
                lemma_descend_list_moved(b1, kids, path, b2, d, p, e);
            }
        },
        Err(_) => {},
    }
}

/// A box that holds no cover on a walk still holds none once copied whole
/// to another place.
pub proof fn lemma_no_cover_moved(b1: Seq<u8>, h: BoxHeader, path: Seq<FourCc>, b2: Seq<u8>, d: int)
    requires
        h.wf(),
        h.end_pos() <= b1.len(),
        0 <= h.offset + d,
        h.end_pos() + d <= b2.len(),
        b1.len() <= u64::MAX,
        b2.len() <= u64::MAX,
        b1.subrange(h.offset as int, h.end_pos()) == b2.subrange(h.offset + d, h.end_pos() + d),
        holds_no_cover(b1, h, path),
    ensures
        holds_no_cover(b2, moved(h, d), path),
    decreases path.len(),
{
    let h2 = moved(h, d);
    let p = h.payload();
    let e = h.end_pos();
    assert(h2.payload() == p + d);
    assert(h2.end_pos() == e + d);
    if h.kind == meta() {
        lemma_window_moved(b1, b2, h.offset as int, e, d, p + 4, p + 8);
        assert(kind_at(b1, p + 4) == kind_at(b2, p + d + 4)) by {
            assert(b1[p + 4] == b2[p + 4 + d]);
            assert(b1[p + 5] == b2[p + 5 + d]);
            assert(b1[p + 6] == b2[p + 6 + d]);
            assert(b1[p + 7] == b2[p + 7 + d]);
        }
    }
    assert(spec_prefix_len(b2, h2) == spec_prefix_len(b1, h));
    let pl = spec_prefix_len(b1, h);
    lemma_window_moved(b1, b2, h.offset as int, e, d, p + pl, e);
    lemma_children_moved(b1, p + pl, e, b2, d);
    lemma_container_children_ok(b1, h);
    let kids = spec_container_children(b1, h).unwrap();
    let k2 = moved_all(kids, d);
    assert(spec_container_children(b2, h2) == Ok::<_, Mp4Error>(k2));
    assert forall|i: int| 0 <= i < k2.len() implies (#[trigger] k2[i]).kind == kids[i].kind
        && k2[i] == moved(kids[i], d) by {}
    if path.len() > 0 {
        assert forall|i: int| 0 <= i < k2.len() && (#[trigger] k2[i]).kind == path[0] implies holds_no_cover(
            b2,
            k2[i],
            path.drop_first(),
        ) by {
            let k = kids[i];
            lemma_window_moved(b1, b2, h.offset as int, e, d, k.offset as int, k.end_pos());
            lemma_no_cover_moved(b1, k, path.drop_first(), b2, d);
        }
    }
}

/// [`lemma_descend_moved`] over siblings inside a region copied whole.
pub proof fn lemma_descend_list_moved(
    b1: Seq<u8>,
    kids: Seq<BoxHeader>,
    path: Seq<FourCc>,
    b2: Seq<u8>,
    d: int,
    lo: int,
    hi: int,
)
    requires
        0 <= lo <= hi <= b1.len(),
        0 <= lo + d,
        hi + d <= b2.len(),
        b1.len() <= u64::MAX,
        b2.len() <= u64::MAX,
        b1.subrange(lo, hi) == b2.subrange(lo + d, hi + d),
        forall|i: int|
            0 <= i < kids.len() ==> (#[trigger] kids[i]).wf() && lo <= kids[i].offset
                && kids[i].end_pos() <= hi,
        plain_path(path),
    ensures
        descend_list(b2, moved_all(kids, d), path, Gather::ChunkTables) == match descend_list(
            b1,
            kids,
            path,
            Gather::ChunkTables,
        ) {
            Ok(s) => Ok::<_, Mp4Error>(moved_all(s, d)),
            Err(_) => descend_list(b2, moved_all(kids, d), path, Gather::ChunkTables),
        },
        (descend_list(b1, kids, path, Gather::ChunkTables) is Ok) == (descend_list(
            b2,
            moved_all(kids, d),
            path,
            Gather::ChunkTables,
        ) is Ok),
    decreases path.len() * 2, kids.len(),
{
    let w = Gather::ChunkTables;
    let k2 = moved_all(kids, d);
    if kids.len() == 0 || path.len() == 0 {
        assert(moved_all(Seq::<BoxHeader>::empty(), d) =~= Seq::<BoxHeader>::empty());
    } else {
        let k = kids[0];
        let rest = kids.drop_first();
        assert(k2.drop_first() =~= moved_all(rest, d));
        assert(k2[0] == moved(k, d));
        assert forall|i: int| 0 <= i < rest.len() implies (#[trigger] rest[i]).wf() && lo
            <= rest[i].offset && rest[i].end_pos() <= hi by {
            assert(rest[i] == kids[i + 1]);
        }
        lemma_descend_list_moved(b1, rest, path, b2, d, lo, hi);
        let tail = path.drop_first();
        assert(plain_path(tail)) by {
            assert forall|i: int| 0 <= i < tail.len() implies tail[i] != meta() by {
                assert(tail[i] == path[i + 1]);
            }
        }
        if k.kind == path[0] {
            lemma_window_moved(b1, b2, lo, hi, d, k.offset as int, k.end_pos());
            lemma_descend_moved(b1, k, tail, b2, d);
        }
        let here1 = if k.kind == path[0] {
            descend(b1, k, tail, w)
        } else {
            Ok(Seq::empty())
        };
        let here2 = if k.kind == path[0] {
            descend(b2, moved(k, d), tail, w)
        } else {
            Ok(Seq::empty())
        };
        match (here1, descend_list(b1, rest, path, w)) {
            (Ok(a), Ok(b)) => {
                if k.kind != path[0] {
                    assert(moved_all(Seq::<BoxHeader>::empty(), d) =~= Seq::<BoxHeader>::empty());
                }
                assert(here2 == Ok::<_, Mp4Error>(moved_all(a, d)));
                assert(moved_all(a + b, d) =~= moved_all(a, d) + moved_all(b, d));
            },
            _ => {},
        }
    }
}

/// `s2` are the boxes `s1` of `b1` copied whole into `b2`, each to its own
/// place.
pub open spec fn copies(b1: Seq<u8>, s1: Seq<BoxHeader>, b2: Seq<u8>, s2: Seq<BoxHeader>) -> bool {
    &&& s1.len() == s2.len()
    &&& forall|i: int|
        0 <= i < s1.len() ==> {
            &&& (#[trigger] s1[i]).wf()
            &&& s1[i].end_pos() <= b1.len()
            &&& s2[i] == moved(s1[i], s2[i].offset - s1[i].offset)
            &&& s2[i].end_pos() <= b2.len()
            &&& b1.subrange(s1[i].offset as int, s1[i].end_pos()) == b2.subrange(
                s2[i].offset as int,
                s2[i].end_pos(),
            )
        }
}

/// Copies of two lists, one after the other.
pub proof fn lemma_copies_concat(
    b1: Seq<u8>,
    a1: Seq<BoxHeader>,
    c1: Seq<BoxHeader>,
    b2: Seq<u8>,
    a2: Seq<BoxHeader>,
    c2: Seq<BoxHeader>,
)
    requires
        copies(b1, a1, b2, a2),
        copies(b1, c1, b2, c2),
    ensures
        copies(b1, a1 + c1, b2, a2 + c2),
{
    let s1 = a1 + c1;
    let s2 = a2 + c2;
    assert forall|i: int| 0 <= i < s1.len() implies {
        &&& (#[trigger] s1[i]).wf()
        &&& s1[i].end_pos() <= b1.len()
        &&& s2[i] == moved(s1[i], s2[i].offset - s1[i].offset)
        &&& s2[i].end_pos() <= b2.len()
        &&& b1.subrange(s1[i].offset as int, s1[i].end_pos()) == b2.subrange(
            s2[i].offset as int,
            s2[i].end_pos(),
        )
    } by {
        if i < a1.len() {
            assert(s1[i] == a1[i]);
            assert(s2[i] == a2[i]);
        } else {
            assert(s1[i] == c1[i - a1.len()]);
            assert(s2[i] == c2[i - a1.len()]);
        }
    }
}

/// What a chunk table walk gathers inside a box copied whole, moved with it,
/// is a list of copies.
proof fn lemma_gathered_copies(b1: Seq<u8>, h: BoxHeader, path: Seq<FourCc>, b2: Seq<u8>, d: int)
    requires
        h.wf(),
        h.end_pos() <= b1.len(),
        0 <= h.offset + d,
        h.end_pos() + d <= b2.len(),
        b1.len() <= u64::MAX,
        b2.len() <= u64::MAX,
        b1.subrange(h.offset as int, h.end_pos()) == b2.subrange(h.offset + d, h.end_pos() + d),
        descend(b1, h, path, Gather::ChunkTables) is Ok,
    ensures
        copies(
            b1,
            descend(b1, h, path, Gather::ChunkTables).unwrap(),
            b2,
            moved_all(descend(b1, h, path, Gather::ChunkTables).unwrap(), d),
        ),
{
    let s = descend(b1, h, path, Gather::ChunkTables).unwrap();
    let t = moved_all(s, d);
    lemma_descend_ok(b1, h, path, Gather::ChunkTables);
    lemma_descend_placed(b1, h, path, Gather::ChunkTables);
    assert forall|i: int| 0 <= i < s.len() implies {
        &&& (#[trigger] s[i]).wf()
        &&& s[i].end_pos() <= b1.len()
        &&& t[i] == moved(s[i], t[i].offset - s[i].offset)
        &&& t[i].end_pos() <= b2.len()
        &&& b1.subrange(s[i].offset as int, s[i].end_pos()) == b2.subrange(
            t[i].offset as int,
            t[i].end_pos(),
        )
    } by {
        assert(gathered_ok(b1, s[i], Gather::ChunkTables));
        lemma_window_moved(
            b1,
            b2,
            h.offset as int,
            h.end_pos(),
            d,
            s[i].offset as int,
            s[i].end_pos(),
        );
    }
}

/// A chunk table walk over copies of siblings finds copies of the same
/// table boxes.
pub proof fn lemma_descend_list_copies(
    b1: Seq<u8>,
    s1: Seq<BoxHeader>,
    b2: Seq<u8>,
    s2: Seq<BoxHeader>,
    path: Seq<FourCc>,
)
    requires
        copies(b1, s1, b2, s2),
        plain_path(path),
        b1.len() <= u64::MAX,
        b2.len() <= u64::MAX,
    ensures
        (descend_list(b1, s1, path, Gather::ChunkTables) is Ok) == (descend_list(
            b2,
            s2,
            path,
            Gather::ChunkTables,
        ) is Ok),
        descend_list(b1, s1, path, Gather::ChunkTables) is Ok ==> copies(
            b1,
            descend_list(b1, s1, path, Gather::ChunkTables).unwrap(),
            b2,
            descend_list(b2, s2, path, Gather::ChunkTables).unwrap(),
        ),
    decreases s1.len(),
{
    let w = Gather::ChunkTables;
    if s1.len() == 0 || path.len() == 0 {
        assert(copies(b1, Seq::<BoxHeader>::empty(), b2, Seq::<BoxHeader>::empty()));
    } else {
        let k1 = s1[0];
        let k2 = s2[0];
        let d = k2.offset - k1.offset;
        let r1 = s1.drop_first();
        let r2 = s2.drop_first();
        assert(copies(b1, r1, b2, r2)) by {
            assert forall|i: int| 0 <= i < r1.len() implies {
                &&& (#[trigger] r1[i]).wf()
                &&& r1[i].end_pos() <= b1.len()
                &&& r2[i] == moved(r1[i], r2[i].offset - r1[i].offset)
                &&& r2[i].end_pos() <= b2.len()
                &&& b1.subrange(r1[i].offset as int, r1[i].end_pos()) == b2.subrange(
                    r2[i].offset as int,
                    r2[i].end_pos(),
                )
            } by {
                assert(r1[i] == s1[i + 1]);
                assert(r2[i] == s2[i + 1]);
            }
        }
        lemma_descend_list_copies(b1, r1, b2, r2, path);
        assert(k2 == moved(k1, d));
        let tail = path.drop_first();
        assert(plain_path(tail)) by {
            assert forall|i: int| 0 <= i < tail.len() implies tail[i] != meta() by {
                assert(tail[i] == path[i + 1]);
            }
        }
        if k1.kind == path[0] {
            lemma_descend_moved(b1, k1, tail, b2, d);
            if descend(b1, k1, tail, w) is Ok {
                lemma_gathered_copies(b1, k1, tail, b2, d);
            }
        }
        let here1 = if k1.kind == path[0] {
            descend(b1, k1, tail, w)
        } else {
            Ok(Seq::empty())
        };
        let here2 = if k2.kind == path[0] {
            descend(b2, k2, tail, w)
        } else {
            Ok(Seq::empty())
        };
        match (here1, descend_list(b1, r1, path, w)) {
            (Ok(a), Ok(b)) => {
                if k1.kind != path[0] {
                    assert(copies(b1, Seq::<BoxHeader>::empty(), b2, Seq::<BoxHeader>::empty()));
                }
                let a2 = here2.unwrap();
                let bb2 = descend_list(b2, r2, path, w).unwrap();
                lemma_copies_concat(b1, a, b, b2, a2, bb2);
            },
            _ => {},
        }
    }
}

/// Two lists of chunk offset tables, of `b1` and `b2`, that match one for
/// one: same type, same count, same entry values.
pub open spec fn same_tables(b1: Seq<u8>, ts1: Seq<ChunkTable>, b2: Seq<u8>, ts2: Seq<ChunkTable>) -> bool {
    &&& ts1.len() == ts2.len()
    &&& forall|k: int|
        0 <= k < ts1.len() ==> (#[trigger] ts1[k]).kind == ts2[k].kind && ts1[k].count
            == ts2[k].count
    &&& forall|k: int, i: int|
        0 <= k < ts1.len() && 0 <= i < ts1[k].count ==> #[trigger] ts1[k].entry(b1, i)
            == ts2[k].entry(b2, i)
}

/// The tables of checked table boxes copied whole are the same tables.
pub proof fn lemma_tables_copies(b1: Seq<u8>, hs1: Seq<BoxHeader>, b2: Seq<u8>, hs2: Seq<BoxHeader>)
    requires
        copies(b1, hs1, b2, hs2),
        forall|k: int| 0 <= k < hs1.len() ==> table_check(b1, #[trigger] hs1[k]) is Ok,
        b1.len() <= usize::MAX,
        b2.len() <= usize::MAX,
    ensures
        same_tables(
            b1,
            hs1.map_values(|t: BoxHeader| table_of(b1, t)),
            b2,
            hs2.map_values(|t: BoxHeader| table_of(b2, t)),
        ),
{
    let ts1 = hs1.map_values(|t: BoxHeader| table_of(b1, t));
    let ts2 = hs2.map_values(|t: BoxHeader| table_of(b2, t));
    assert forall|k: int| 0 <= k < ts1.len() implies (#[trigger] ts1[k]).kind == ts2[k].kind
        && ts1[k].count == ts2[k].count by {
        let h1 = hs1[k];
        let h2 = hs2[k];
        let d = h2.offset - h1.offset;
        let p = h1.payload();
        assert(table_check(b1, h1) is Ok);
        lemma_window_moved(b1, b2, h1.offset as int, h1.end_pos(), d, p + 4, p + 8);
        assert(be32(b2, p + d + 4) == be32(b1, p + 4)) by {
            assert(b1[p + 4] == b2[p + 4 + d]);
            assert(b1[p + 5] == b2[p + 5 + d]);
            assert(b1[p + 6] == b2[p + 6 + d]);
            assert(b1[p + 7] == b2[p + 7 + d]);
        }
    }
    assert forall|k: int, i: int| 0 <= k < ts1.len() && 0 <= i < ts1[k].count implies #[trigger] ts1[k].entry(
        b1,
        i,
    ) == ts2[k].entry(b2, i) by {
        let h1 = hs1[k];
        let h2 = hs2[k];
        let d = h2.offset - h1.offset;
        let p = h1.payload();
        assert(table_check(b1, h1) is Ok);
        lemma_window_moved(b1, b2, h1.offset as int, h1.end_pos(), d, p + 4, p + 8);
        assert(be32(b2, p + d + 4) == be32(b1, p + 4)) by {
            assert(b1[p + 4] == b2[p + 4 + d]);
            assert(b1[p + 5] == b2[p + 5 + d]);
            assert(b1[p + 6] == b2[p + 6 + d]);
            assert(b1[p + 7] == b2[p + 7 + d]);
        }
        let t1 = ts1[k];
        let t2 = ts2[k];
        assert(t2.entries_offset == t1.entries_offset + d);
        let q = t1.entry_pos(i);
        assert(q + t1.width() <= h1.end_pos());
        lemma_window_moved(b1, b2, h1.offset as int, h1.end_pos(), d, q, q + t1.width());
        assert(t2.entry_pos(i) == q + d);
        assert(b1.subrange(q, q + 4) =~= b2.subrange(q + d, q + d + 4));
        lemma_be32_window(b1, q, b2, q + d);
        if t1.kind == co64() {
            assert(b1.subrange(q + 4, q + 8) =~= b2.subrange(q + d + 4, q + d + 8));
            lemma_be32_window(b1, q + 4, b2, q + d + 4);
        }
    }
}

/// Boxes of `b1` laid end to end at `pos` in `b2` are copies of them.
pub proof fn lemma_flat_copies(b1: Seq<u8>, ks: Seq<BoxHeader>, lim: int, b2: Seq<u8>, pos: int)
    requires
        b1.len() <= u64::MAX,
        b2.len() <= u64::MAX,
        forall|i: int|
            0 <= i < ks.len() ==> spec_parse(b1, (#[trigger] ks[i]).offset as int, lim) == Ok::<
                _,
                Mp4Error,
            >(Some(ks[i])),
        0 <= pos,
        pos + flat(kid_bytes(b1, ks)).len() <= b2.len(),
        b2.subrange(pos, pos + flat(kid_bytes(b1, ks)).len()) == flat(kid_bytes(b1, ks)),
    ensures
        copies(b1, ks, b2, headers_of(kid_bytes(b1, ks), pos)),
{
    let kb = kid_bytes(b1, ks);
    let hs = headers_of(kb, pos);
    lemma_headers_kinds(kb, pos);
    assert forall|i: int| 0 <= i < ks.len() implies {
        &&& (#[trigger] ks[i]).wf()
        &&& ks[i].end_pos() <= b1.len()
        &&& hs[i] == moved(ks[i], hs[i].offset - ks[i].offset)
        &&& hs[i].end_pos() <= b2.len()
        &&& b1.subrange(ks[i].offset as int, ks[i].end_pos()) == b2.subrange(
            hs[i].offset as int,
            hs[i].end_pos(),
        )
    } by {
        let k = ks[i];
        lemma_parse_ok(b1, k.offset as int, lim);
        lemma_flat_at(kb, i, pos);
        let l = flat(kb.take(i)).len() as int;
        let q = pos + l;
        assert(kb[i] == b1.subrange(k.offset as int, k.end_pos()));
        lemma_parsed_one_box(b1, k.offset as int, lim, q);
        assert(hs[i] == header_of(kb[i], q));
        assert(b2.subrange(q, q + kb[i].len()) =~= flat(kb).subrange(l, l + kb[i].len()));
    }
}

/// A walk over a list of siblings is the walk over its first part, then
/// over the rest.
pub proof fn lemma_descend_list_concat(
    buf: Seq<u8>,
    a: Seq<BoxHeader>,
    c: Seq<BoxHeader>,
    path: Seq<FourCc>,
    what: Gather,
)
    requires
        path.len() > 0,
    ensures
        descend_list(buf, a + c, path, what) == then_append(
            descend_list(buf, a, path, what),
            descend_list(buf, c, path, what),
        ),
    decreases a.len(),
{
    if a.len() == 0 {
        assert(a + c =~= c);
        match descend_list(buf, c, path, what) {
            Ok(x) => {
                assert(Seq::<BoxHeader>::empty() + x =~= x);
            },
            Err(_) => {},
        }
    } else {
        assert((a + c).drop_first() =~= a.drop_first() + c);
        assert((a + c)[0] == a[0]);
        lemma_descend_list_concat(buf, a.drop_first(), c, path, what);
        let here = if a[0].kind == path[0] {
            descend(buf, a[0], path.drop_first(), what)
        } else {
            Ok(Seq::empty())
        };
        match (here, descend_list(buf, a.drop_first(), path, what), descend_list(buf, c, path, what)) {
            (Ok(x), Ok(y), Ok(z)) => {
                assert(x + (y + z) =~= (x + y) + z);
            },
            _ => {},
        }
    }
}

/// A walk over one box of another type than the next on the path finds
/// nothing.
pub proof fn lemma_descend_list_other(buf: Seq<u8>, h: BoxHeader, path: Seq<FourCc>, what: Gather)
    requires
        path.len() > 0,
        h.kind != path[0],
    ensures
        descend_list(buf, seq![h], path, what) == Ok::<_, Mp4Error>(Seq::<BoxHeader>::empty()),
{
    assert(seq![h].drop_first() =~= Seq::<BoxHeader>::empty());
    assert(descend_list(buf, Seq::<BoxHeader>::empty(), path, what) == Ok::<_, Mp4Error>(
        Seq::<BoxHeader>::empty(),
    ));
    assert(seq![h][0] == h);
    assert(Seq::<BoxHeader>::empty() + Seq::<BoxHeader>::empty() =~= Seq::<BoxHeader>::empty());
}

/// The requirements of the cover law on `moov_buf` and `covr_box`.
pub open spec fn cover_ready(moov_buf: Seq<u8>, covr_box: Seq<u8>) -> bool {
    &&& one_box(covr_box)
    &&& kind_at(covr_box, 4) == covr()
    &&& moov_buf.len() + covr_box.len() + growth(3) + 16 <= usize::MAX
    &&& spec_moov_header(moov_buf) matches Ok(h) ==> cover_path_clean(moov_buf, h, covers_path(), covr_box)
    &&& spec_replace_cover(moov_buf, covr_box) is Ok
}

/// Where the children of a rebuilt `moov` come from.
#[verifier::rlimit(100)]
#[verifier::spinoff_prover]
pub proof fn lemma_moov_pieces(moov_buf: Seq<u8>, covr_box: Seq<u8>)
    requires
        cover_ready(moov_buf, covr_box),
    ensures
        ({
            let h = spec_moov_header(moov_buf).unwrap();
            let out = spec_replace_cover(moov_buf, covr_box).unwrap().0;
            let hr = header_of(out, 0);
            let kids = level_kids(moov_buf, h);
            let j = level_j(moov_buf, h, covers_path());
            let a = kids.take(j);
            let b = after_first(kids, j);
            let x = level_x(moov_buf, h, covers_path(), covr_box);
            let ka = kid_bytes(moov_buf, a);
            let kb = kid_bytes(moov_buf, b);
            let pa = hr.payload();
            let px = pa + flat(ka).len();
            let pb = px + x.len();
            &&& h.wf()
            &&& h.end_pos() == moov_buf.len()
            &&& spec_moov_header(out) == Ok::<_, Mp4Error>(hr)
            &&& hr.wf()
            &&& out.len() <= usize::MAX
            &&& spec_container_children(moov_buf, h) == Ok::<_, Mp4Error>(kids)
            &&& 0 <= j <= kids.len()
            &&& (j < kids.len() ==> kids == a + seq![kids[j]] + b && kids[j].kind == udta())
            &&& (j == kids.len() ==> kids == a && b == Seq::<BoxHeader>::empty())
            &&& spec_container_children(out, hr) == Ok::<_, Mp4Error>(
                headers_of(ka + (seq![x] + kb), pa),
            )
            &&& kind_at(x, 4) == udta()
            &&& pb + flat(kb).len() <= out.len()
            &&& out.subrange(pa, pa + flat(ka + (seq![x] + kb)).len()) == flat(ka + (seq![x] + kb))
        }),
{
    broadcast use vstd::array::group_array_axioms;

    let cp = covers_path();
    lemma_moov_header_ok(moov_buf);
    let h = spec_moov_header(moov_buf).unwrap();
    let out = spec_replace_cover(moov_buf, covr_box).unwrap().0;
    assert(cp.skip(0) =~= cp);
    assert(moov() != meta()) by {
        assert(moov().0[1] != meta().0[1]);
    }
    assert(out.subrange(0, out.len() as int) =~= out);
    lemma_rebuild_len(moov_buf, h, cp, covr_box);
    lemma_level_placed(moov_buf, h, cp, covr_box, out, 0, out.len() as int);
    lemma_level_facts(moov_buf, h, cp, covr_box);
    lemma_rebuilt_body(moov_buf, h, cp, covr_box);
    let hr = header_of(out, 0);
    assert(spec_moov_header(out) == Ok::<_, Mp4Error>(hr));
    let kids = level_kids(moov_buf, h);
    let j = level_j(moov_buf, h, cp);
    lemma_first_of(kids, cp[0]);
    let a = kids.take(j);
    let b = after_first(kids, j);
    let x = level_x(moov_buf, h, cp, covr_box);
    let ka = kid_bytes(moov_buf, a);
    let kb = kid_bytes(moov_buf, b);
    let hdp = level_hdp(moov_buf, h);
    assert(hdp =~= Seq::<Seq<u8>>::empty());
    reveal(level_ps);
    let ps = level_ps(moov_buf, h, cp, covr_box);
    assert(ps =~= ka + (seq![x] + kb));
    lemma_cover_level(cp);
    assert(level_pre(moov_buf, h) =~= Seq::<u8>::empty());
    assert(ps[hdp.len() + j] == x);
    lemma_flat_concat(ka, seq![x] + kb);
    lemma_flat_concat(seq![x], kb);
    assert(flat(seq![x]) =~= x) by {
        assert(seq![x].drop_first() =~= Seq::<Seq<u8>>::empty());
        assert(flat(Seq::<Seq<u8>>::empty()) == Seq::<u8>::empty());
        assert(flat(seq![x]) == x + flat(Seq::<Seq<u8>>::empty()));
    }
    if j < kids.len() {
        assert(kids =~= a + seq![kids[j]] + b);
    } else {
        assert(kids =~= a);
    }
}

/// The children of a rebuilt `moov`: copies of the children before `udta`,
/// the rebuilt (or created) `udta`, copies of the children after it.
#[verifier::rlimit(100)]
#[verifier::spinoff_prover]
pub proof fn lemma_rebuilt_moov_children(moov_buf: Seq<u8>, covr_box: Seq<u8>)
    requires
        cover_ready(moov_buf, covr_box),
    ensures
        ({
            let h = spec_moov_header(moov_buf).unwrap();
            let out = spec_replace_cover(moov_buf, covr_box).unwrap().0;
            let hr = header_of(out, 0);
            let kids = level_kids(moov_buf, h);
            let j = level_j(moov_buf, h, covers_path());
            let a = kids.take(j);
            let b = after_first(kids, j);
            let x = level_x(moov_buf, h, covers_path(), covr_box);
            let ka = kid_bytes(moov_buf, a);
            let pa = hr.payload();
            let px = pa + flat(ka).len();
            let pb = px + x.len();
            &&& spec_moov_header(out) == Ok::<_, Mp4Error>(hr)
            &&& hr.wf()
            &&& out.len() <= usize::MAX
            &&& spec_container_children(moov_buf, h) == Ok::<_, Mp4Error>(kids)
            &&& 0 <= j <= kids.len()
            &&& (j < kids.len() ==> kids == a + seq![kids[j]] + b && kids[j].kind == udta())
            &&& (j == kids.len() ==> kids == a && b == Seq::<BoxHeader>::empty())
            &&& spec_container_children(out, hr) == Ok::<_, Mp4Error>(
                headers_of(ka, pa) + seq![header_of(x, px)] + headers_of(
                    kid_bytes(moov_buf, b),
                    pb,
                ),
            )
            &&& header_of(x, px).kind == udta()
            &&& copies(moov_buf, a, out, headers_of(ka, pa))
            &&& copies(moov_buf, b, out, headers_of(kid_bytes(moov_buf, b), pb))
        }),
{
    let cp = covers_path();
    lemma_moov_pieces(moov_buf, covr_box);
    let h = spec_moov_header(moov_buf).unwrap();
    let out = spec_replace_cover(moov_buf, covr_box).unwrap().0;
    let hr = header_of(out, 0);
    let kids = level_kids(moov_buf, h);
    let j = level_j(moov_buf, h, cp);
    let a = kids.take(j);
    let b = after_first(kids, j);
    let x = level_x(moov_buf, h, cp, covr_box);
    let ka = kid_bytes(moov_buf, a);
    let kb = kid_bytes(moov_buf, b);
    let pa = hr.payload();
    let px = pa + flat(ka).len();
    let pb = px + x.len();
    let ps = ka + (seq![x] + kb);
    lemma_flat_concat(ka, seq![x] + kb);
    lemma_flat_concat(seq![x], kb);
    assert(flat(seq![x]) =~= x) by {
        assert(seq![x].drop_first() =~= Seq::<Seq<u8>>::empty());
        assert(flat(Seq::<Seq<u8>>::empty()) == Seq::<u8>::empty());
        assert(flat(seq![x]) == x + flat(Seq::<Seq<u8>>::empty()));
    }
    lemma_headers_concat(ka, seq![x] + kb, pa);
    lemma_headers_concat(seq![x], kb, px);
    assert(headers_of(seq![x], px) =~= seq![header_of(x, px)]) by {
        assert(seq![x].drop_first() =~= Seq::<Seq<u8>>::empty());
        assert(seq![x][0] == x);
        assert(headers_of(Seq::<Seq<u8>>::empty(), px + x.len()) == Seq::<BoxHeader>::empty());
    }
    assert(headers_of(ps, pa) =~= headers_of(ka, pa) + seq![header_of(x, px)] + headers_of(kb, pb));
    // The kids parse where they are.
    let start_m = h.payload() + spec_prefix_len(moov_buf, h);
    lemma_children_parsed(moov_buf, start_m, h.end_pos());
    assert forall|i: int| 0 <= i < a.len() implies spec_parse(
        moov_buf,
        (#[trigger] a[i]).offset as int,
        h.end_pos(),
    ) == Ok::<_, Mp4Error>(Some(a[i])) by {
        assert(a[i] == kids[i]);
    }
    assert forall|i: int| 0 <= i < b.len() implies spec_parse(
        moov_buf,
        (#[trigger] b[i]).offset as int,
        h.end_pos(),
    ) == Ok::<_, Mp4Error>(Some(b[i])) by {
        assert(b[i] == kids[i + j + 1]);
    }
    let fp = flat(ps);
    assert(out.subrange(pa, pa + flat(ka).len()) =~= fp.subrange(0, flat(ka).len() as int));
    assert(fp.subrange(0, flat(ka).len() as int) =~= flat(ka));
    lemma_flat_copies(moov_buf, a, h.end_pos(), out, pa);
    let la: int = flat(ka).len() as int + x.len() as int;
    assert(out.subrange(pb, pb + flat(kb).len()) =~= fp.subrange(la, fp.len() as int));
    assert(fp.subrange(la, fp.len() as int) =~= flat(kb));
    lemma_flat_copies(moov_buf, b, h.end_pos(), out, pb);
}

/// A walk over `a`, one box of another type, and `c` is the walk over `a`
/// and `c`.
proof fn lemma_descend_list_skip(
    buf: Seq<u8>,
    a: Seq<BoxHeader>,
    h: BoxHeader,
    c: Seq<BoxHeader>,
    path: Seq<FourCc>,
    what: Gather,
)
    requires
        path.len() > 0,
        h.kind != path[0],
    ensures
        descend_list(buf, a + seq![h] + c, path, what) == then_append(
            descend_list(buf, a, path, what),
            descend_list(buf, c, path, what),
        ),
{
    lemma_descend_list_concat(buf, a + seq![h], c, path, what);
    lemma_descend_list_concat(buf, a, seq![h], path, what);
    lemma_descend_list_other(buf, h, path, what);
    match descend_list(buf, a, path, what) {
        Ok(x) => {
            assert(x + Seq::<BoxHeader>::empty() =~= x);
        },
        Err(_) => {},
    }
}

/// Replacing the cover keeps every chunk offset table: the rebuilt `moov`
/// holds the same tables as the input, in the same order, with the same
/// types, counts and entry values. Stated under the conditions of the law
/// on the cover (see `law_replace_cover_single_cover`), for a result whose
/// offsets fit in `usize`.
#[verifier::rlimit(100)]
#[verifier::spinoff_prover]
pub proof fn law_replace_cover_keeps_tables(moov_buf: Seq<u8>, covr_box: Seq<u8>)
    requires
        one_box(covr_box),
        kind_at(covr_box, 4) == covr(),
        moov_buf.len() + covr_box.len() + growth(3) + 16 <= usize::MAX,
        spec_moov_header(moov_buf) matches Ok(h) ==> cover_path_clean(moov_buf, h, covers_path(), covr_box),
        spec_replace_cover(moov_buf, covr_box) is Ok,
        spec_chunk_tables(moov_buf) is Ok,
    ensures
        ({
            let out = spec_replace_cover(moov_buf, covr_box).unwrap().0;
            &&& spec_chunk_tables(out) is Ok
            &&& same_tables(
                moov_buf,
                spec_chunk_tables(moov_buf).unwrap(),
                out,
                spec_chunk_tables(out).unwrap(),
            )
        }),
{
    broadcast use vstd::array::group_array_axioms;

    let w = Gather::ChunkTables;
    let tp = tables_path();
    lemma_rebuilt_moov_children(moov_buf, covr_box);
    lemma_moov_header_ok(moov_buf);
    let h = spec_moov_header(moov_buf).unwrap();
    let out = spec_replace_cover(moov_buf, covr_box).unwrap().0;
    let hr = header_of(out, 0);
    let kids = level_kids(moov_buf, h);
    let j = level_j(moov_buf, h, covers_path());
    let a = kids.take(j);
    let b = after_first(kids, j);
    let x = level_x(moov_buf, h, covers_path(), covr_box);
    let ka = kid_bytes(moov_buf, a);
    let pa = hr.payload();
    let px = pa + flat(ka).len();
    let pb = px + x.len();
    let ha = headers_of(ka, pa);
    let hb = headers_of(kid_bytes(moov_buf, b), pb);
    let hx = header_of(x, px);
    assert(plain_path(tp)) by {
        assert(trak().0[0] != meta().0[0]);
        assert(mdia().0[1] != meta().0[1]);
        assert(minf().0[1] != meta().0[1]);
        assert(stbl().0[0] != meta().0[0]);
    }
    assert(udta() != trak()) by {
        assert(udta().0[0] != trak().0[0]);
    }
    assert(tp[0] == trak());
    // The walk in the output skips the rebuilt `udta`.
    lemma_descend_list_skip(out, ha, hx, hb, tp, w);
    // The walk in the input skips the input's `udta`, if any.
    if j < kids.len() {
        lemma_descend_list_skip(moov_buf, a, kids[j], b, tp, w);
    } else {
        assert(descend_list(moov_buf, b, tp, w) == Ok::<_, Mp4Error>(Seq::<BoxHeader>::empty()));
        assert(descend_list(moov_buf, kids, tp, w) == then_append(
            descend_list(moov_buf, a, tp, w),
            descend_list(moov_buf, b, tp, w),
        )) by {
            match descend_list(moov_buf, a, tp, w) {
                Ok(y) => {
                    assert(y + Seq::<BoxHeader>::empty() =~= y);
                },
                Err(_) => {},
            }
        }
    }
    lemma_descend_list_copies(moov_buf, a, out, ha, tp);
    lemma_descend_list_copies(moov_buf, b, out, hb, tp);
    assert(descend(moov_buf, h, tp, w) == descend_list(moov_buf, kids, tp, w));
    assert(descend(out, hr, tp, w) == descend_list(out, ha + seq![hx] + hb, tp, w));
    let ra = descend_list(moov_buf, a, tp, w).unwrap();
    let rb = descend_list(moov_buf, b, tp, w).unwrap();
    let ra2 = descend_list(out, ha, tp, w).unwrap();
    let rb2 = descend_list(out, hb, tp, w).unwrap();
    lemma_copies_concat(moov_buf, ra, rb, out, ra2, rb2);
    lemma_descend_ok(moov_buf, h, tp, w);
    let rm = ra + rb;
    assert forall|k: int| 0 <= k < rm.len() implies table_check(moov_buf, #[trigger] rm[k]) is Ok by {
        assert(gathered_ok(moov_buf, rm[k], w));
    }
    lemma_tables_copies(moov_buf, rm, out, ra2 + rb2);
}

/// With no shift asked, no entry of tables with equal values mismatches.
proof fn lemma_no_mismatch(
    b1: Seq<u8>,
    b2: Seq<u8>,
    t1: ChunkTable,
    t2: ChunkTable,
    want: MoovExpectation,
    n: int,
)
    requires
        want.shift == 0,
        n <= t1.count,
        forall|i: int| 0 <= i < t1.count ==> t1.entry(b1, i) == t2.entry(b2, i),
        forall|i: int| 0 <= i < t1.count ==> 0 <= #[trigger] t1.entry(b1, i) <= u64::MAX,
    ensures
        first_mismatch(b1, b2, t1, t2, want, n) is None,
    decreases n,
{
    if n > 0 {
        lemma_no_mismatch(b1, b2, t1, t2, want, n - 1);
        let x = t1.entry(b1, n - 1);
        assert(0 <= x <= u64::MAX);
        assert(shifted(x as u64, 0) == x as u64);
    }
}

/// Entries of a table fit in 64 bits.
proof fn lemma_entry_bounds(b: Seq<u8>, t: ChunkTable, i: int)
    requires
        0 <= i < t.count,
        t.fits(b.len() as int),
    ensures
        0 <= t.entry(b, i) <= u64::MAX,
{
    let q = t.entry_pos(i);
    if t.kind == co64() {
        assert(0 <= be32(b, q) <= u32::MAX);
        assert(0 <= be32(b, q + 4) <= u32::MAX);
        assert(be64(b, q) == be32(b, q) * 0x1_0000_0000 + be32(b, q + 4));
        assert(be32(b, q) * 0x1_0000_0000 <= u32::MAX * 0x1_0000_0000) by (nonlinear_arith)
            requires
                0 <= be32(b, q) <= u32::MAX,
        ;
        assert(be32(b, q) * 0x1_0000_0000 >= 0) by (nonlinear_arith)
            requires
                0 <= be32(b, q),
        ;
    }
}

/// Tables that match one for one pass the comparison with no shift.
proof fn lemma_same_tables_check(
    b1: Seq<u8>,
    b2: Seq<u8>,
    ta: Seq<ChunkTable>,
    tb: Seq<ChunkTable>,
    want: MoovExpectation,
    k: int,
)
    requires
        want.shift == 0,
        same_tables(b1, ta, b2, tb),
        forall|m: int| 0 <= m < ta.len() ==> (#[trigger] ta[m]).fits(b1.len() as int),
        k <= ta.len(),
    ensures
        tables_check(b1, b2, ta, tb, want, k) is Ok,
    decreases k,
{
    if k > 0 {
        lemma_same_tables_check(b1, b2, ta, tb, want, k - 1);
        let t1 = ta[k - 1];
        let t2 = tb[k - 1];
        assert(t1.kind == t2.kind && t1.count == t2.count);
        assert forall|i: int| 0 <= i < t1.count implies t1.entry(b1, i) == t2.entry(b2, i) by {
            assert(ta[k - 1].entry(b1, i) == tb[k - 1].entry(b2, i));
        }
        assert forall|i: int| 0 <= i < t1.count implies 0 <= #[trigger] t1.entry(b1, i)
            <= u64::MAX by {
            lemma_entry_bounds(b1, t1, i);
        }
        lemma_no_mismatch(b1, b2, t1, t2, want, t1.count as int);
    }
}

/// A rebuilt `moov` passes the comparison of input and output `moov` boxes
/// when no offset is to move: one cover, of the new cover's size, and every
/// chunk offset where it was. Stated under the conditions of the law on the
/// cover, for an input whose chunk offset tables can be read.
pub proof fn law_rebuilt_moov_passes_check(moov_buf: Seq<u8>, covr_box: Seq<u8>, old_moov_end: u64)
    requires
        one_box(covr_box),
        kind_at(covr_box, 4) == covr(),
        moov_buf.len() + covr_box.len() + growth(3) + 16 <= usize::MAX,
        spec_moov_header(moov_buf) matches Ok(h) ==> cover_path_clean(moov_buf, h, covers_path(), covr_box),
        spec_replace_cover(moov_buf, covr_box) is Ok,
        spec_chunk_tables(moov_buf) is Ok,
    ensures
        spec_check_moov_pair(
            moov_buf,
            spec_replace_cover(moov_buf, covr_box).unwrap().0,
            MoovExpectation { covr_len: covr_box.len() as usize, shift: 0, old_moov_end },
        ) is Ok,
{
    let out = spec_replace_cover(moov_buf, covr_box).unwrap().0;
    let want = MoovExpectation { covr_len: covr_box.len() as usize, shift: 0, old_moov_end };
    law_replace_cover_single_cover(moov_buf, covr_box);
    law_replace_cover_keeps_tables(moov_buf, covr_box);
    lemma_chunk_tables_ok(moov_buf);
    let ta = spec_chunk_tables(moov_buf).unwrap();
    let tb = spec_chunk_tables(out).unwrap();
    let cs = spec_find_covr(out).unwrap();
    assert(cs[0].size == covr_box.len());
    lemma_same_tables_check(moov_buf, out, ta, tb, want, ta.len() as int);
}

/// Rebuilding a `moov` and then patching its chunk offsets leaves, at each
/// entry of the rebuilt tables, the input's offset moved by `delta` when it
/// points at or past the end of the old `moov`, and the input's offset
/// otherwise. Stated under the conditions of the law on the cover.
pub proof fn law_rebuilt_then_patched(
    moov_buf: Seq<u8>,
    covr_box: Seq<u8>,
    old_moov: BoxHeader,
    delta: i64,
    k: int,
    i: int,
)
    requires
        one_box(covr_box),
        kind_at(covr_box, 4) == covr(),
        moov_buf.len() + covr_box.len() + growth(3) + 16 <= usize::MAX,
        spec_moov_header(moov_buf) matches Ok(h) ==> cover_path_clean(moov_buf, h, covers_path(), covr_box),
        spec_replace_cover(moov_buf, covr_box) is Ok,
        spec_chunk_tables(moov_buf) is Ok,
        spec_patch(spec_replace_cover(moov_buf, covr_box).unwrap().0, old_moov, delta) is Ok,
        0 <= k < spec_chunk_tables(moov_buf).unwrap().len(),
        0 <= i < spec_chunk_tables(moov_buf).unwrap()[k].count,
    ensures
        ({
            let out = spec_replace_cover(moov_buf, covr_box).unwrap().0;
            let patched = spec_patch(out, old_moov, delta).unwrap().0;
            &&& spec_chunk_tables(out) is Ok
            &&& spec_chunk_tables(out).unwrap()[k].entry(patched, i) == patched_value(
                spec_chunk_tables(moov_buf).unwrap()[k].entry(moov_buf, i),
                old_moov.end_pos(),
                delta,
            )
        }),
{
    let out = spec_replace_cover(moov_buf, covr_box).unwrap().0;
    law_replace_cover_keeps_tables(moov_buf, covr_box);
    lemma_moov_header_ok(moov_buf);
    lemma_rebuild_len(moov_buf, spec_moov_header(moov_buf).unwrap(), covers_path(), covr_box);
    let ta = spec_chunk_tables(moov_buf).unwrap();
    let tb = spec_chunk_tables(out).unwrap();
    assert(ta[k].entry(moov_buf, i) == tb[k].entry(out, i));
    law_patch_moves_offsets(out, old_moov, delta, k, i);
}

} // verus!
