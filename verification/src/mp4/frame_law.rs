//! Why patching leaves the structure of a `moov` as it was: the walks read
//! box headers and table counts only, and every byte the patcher writes
//! lies deep inside a table box, past its header and count.

use vstd::prelude::*;

use super::be::{be32, be64};
use super::box_header::{kind_at, lemma_parse_ok, min, spec_children, spec_parse, spec_read, BoxHeader};
use super::error::Mp4Error;
use super::box_header::FourCc;
use super::finder::{
    descend, descend_list, lemma_children_ok, lemma_container_children_ok, lemma_descend_placed,
    gathered_ok, lemma_descend_ok, lemma_tables_in_ok, meta, ordered, spec_container_children, table_check, tables_in, Gather,
};
use super::tables_law::plain_path;

verus! {

/// Decoding a header looks at no more than its first 16 bytes and at how
/// many bytes there are.
pub proof fn lemma_read_frame(d1: Seq<u8>, d2: Seq<u8>, offset: u64, limit: u64)
    requires
        d1.len() == d2.len(),
        forall|x: int| 0 <= x < 16 && x < d1.len() ==> d1[x] == d2[x],
    ensures
        spec_read(d1, offset, limit) == spec_read(d2, offset, limit),
{
    if d1.len() >= 8 {
        assert(be32(d1, 0) == be32(d2, 0));
        assert(kind_at(d1, 4) == kind_at(d2, 4));
        if d1.len() >= 16 {
            assert(be32(d1, 8) == be32(d2, 8));
            assert(be32(d1, 12) == be32(d2, 12));
            assert(be64(d1, 8) == be64(d2, 8));
        }
    }
}

/// Byte `x` lies at least 16 bytes into one of the boxes `ks`.
pub open spec fn deep_in(ks: Seq<BoxHeader>, x: int) -> bool {
    exists|i: int| 0 <= i < ks.len() && (#[trigger] ks[i]).offset + 16 <= x < ks[i].end_pos()
}

/// A sibling scan finds the same boxes in a buffer that differs only deep
/// inside them.
pub proof fn lemma_children_frame(b1: Seq<u8>, b2: Seq<u8>, p: int, e: int, ks: Seq<BoxHeader>)
    requires
        0 <= p,
        e <= b1.len(),
        b1.len() == b2.len(),
        b1.len() <= u64::MAX,
        spec_children(b1, p, e) == Ok::<_, Mp4Error>(ks),
        forall|x: int| p <= x < e && b1[x] != b2[x] ==> deep_in(ks, x),
    ensures
        spec_children(b2, p, e) == Ok::<_, Mp4Error>(ks),
    decreases e - p,
{
    lemma_children_ok(b1, p, e);
    lemma_parse_ok(b1, p, e);
    let lim = min(e, b1.len() as int);
    if p < lim {
        let d1 = b1.subrange(p, lim);
        let d2 = b2.subrange(p, lim);
        match spec_parse(b1, p, e) {
            Ok(Some(h)) => {
                let rest = ks.drop_first();
                assert(ks[0] == h);
                assert forall|x: int| 0 <= x < 16 && x < d1.len() implies d1[x] == d2[x] by {
                    if b1[p + x] != b2[p + x] {
                        assert(deep_in(ks, p + x));
                        let i = choose|i: int|
                            0 <= i < ks.len() && (#[trigger] ks[i]).offset + 16 <= p + x < ks[i].end_pos();
                        if i > 0 {
                            assert(ks[i].offset >= ks[0].end_pos()) by {
                                assert(ordered(ks));
                            }
                        }
                    }
                }
                lemma_read_frame(d1, d2, p as u64, lim as u64);
                assert(spec_parse(b2, p, e) == spec_parse(b1, p, e));
                lemma_parse_ok(b2, p, e);
                let q = h.end_pos();
                match spec_children(b1, q, e) {
                    Ok(r) => {
                        assert(ks == seq![h] + r);
                        assert(rest =~= r);
                    },
                    Err(_) => {},
                }
                assert forall|x: int| q <= x < e && b1[x] != b2[x] implies deep_in(rest, x) by {
                    assert(deep_in(ks, x));
                    let i = choose|i: int|
                        0 <= i < ks.len() && (#[trigger] ks[i]).offset + 16 <= x < ks[i].end_pos();
                    assert(i != 0);
                    assert(rest[i - 1] == ks[i]);
                }
                lemma_children_frame(b1, b2, q, e, rest);
                assert(ks =~= seq![h] + rest);
            },
            _ => {
                lemma_read_frame(d1, d2, p as u64, lim as u64);
            },
        }
    }
}

/// Byte `x` lies in the entries of one of the table boxes `ts`: past its
/// version, flags and count.
pub open spec fn in_entries(ts: Seq<BoxHeader>, x: int) -> bool {
    exists|i: int| 0 <= i < ts.len() && (#[trigger] ts[i]).payload() + 8 <= x < ts[i].end_pos()
}

/// `t` is among what the walk below one of `kids` of the next type gathers.
pub open spec fn from_some_kid(b: Seq<u8>, kids: Seq<BoxHeader>, path: Seq<FourCc>, w: Gather, t: BoxHeader) -> bool {
    exists|m: int|
        0 <= m < kids.len() && (#[trigger] kids[m]).kind == path[0] && descend(
            b,
            kids[m],
            path.drop_first(),
            w,
        ) is Ok && descend(b, kids[m], path.drop_first(), w).unwrap().contains(t)
}

/// Every box a walk over siblings gathers comes from the walk below one of
/// them.
pub proof fn lemma_descend_list_members(
    b: Seq<u8>,
    kids: Seq<BoxHeader>,
    path: Seq<FourCc>,
    w: Gather,
)
    requires
        path.len() > 0,
        descend_list(b, kids, path, w) is Ok,
    ensures
        forall|n: int|
            0 <= n < descend_list(b, kids, path, w).unwrap().len() ==> from_some_kid(
                b,
                kids,
                path,
                w,
                #[trigger] descend_list(b, kids, path, w).unwrap()[n],
            ),
    decreases kids.len(),
{
    if kids.len() > 0 {
        let rest = kids.drop_first();
        lemma_descend_list_members(b, rest, path, w);
        let s = descend_list(b, kids, path, w).unwrap();
        let here = if kids[0].kind == path[0] {
            descend(b, kids[0], path.drop_first(), w)
        } else {
            Ok(Seq::empty())
        };
        let a = here.unwrap();
        let r = descend_list(b, rest, path, w).unwrap();
        assert(s == a + r);
        assert forall|n: int| 0 <= n < s.len() implies from_some_kid(b, kids, path, w, #[trigger] s[n]) by {
            if n < a.len() {
                assert(s[n] == a[n]);
                assert(kids[0].kind == path[0]);
                assert(a.contains(a[n]));
                assert(kids[0] == kids[0]);
            } else {
                assert(s[n] == r[n - a.len()]);
                assert(from_some_kid(b, rest, path, w, r[n - a.len()]));
                let m = choose|m: int|
                    0 <= m < rest.len() && (#[trigger] rest[m]).kind == path[0] && descend(
                        b,
                        rest[m],
                        path.drop_first(),
                        w,
                    ) is Ok && descend(b, rest[m], path.drop_first(), w).unwrap().contains(
                        r[n - a.len()],
                    );
                assert(rest[m] == kids[m + 1]);
            }
        }
    } else {
        assert(descend_list(b, kids, path, w).unwrap().len() == 0);
    }
}

/// A walk over siblings each of which gives the same result in two buffers
/// gives the same result.
proof fn lemma_descend_list_eq(b1: Seq<u8>, b2: Seq<u8>, kids: Seq<BoxHeader>, path: Seq<FourCc>, w: Gather)
    requires
        path.len() > 0,
        forall|m: int|
            0 <= m < kids.len() && (#[trigger] kids[m]).kind == path[0] ==> descend(
                b2,
                kids[m],
                path.drop_first(),
                w,
            ) == descend(b1, kids[m], path.drop_first(), w),
    ensures
        descend_list(b2, kids, path, w) == descend_list(b1, kids, path, w),
    decreases kids.len(),
{
    if kids.len() > 0 {
        let rest = kids.drop_first();
        assert forall|m: int| 0 <= m < rest.len() && (#[trigger] rest[m]).kind == path[0] implies descend(
            b2,
            rest[m],
            path.drop_first(),
            w,
        ) == descend(b1, rest[m], path.drop_first(), w) by {
            assert(rest[m] == kids[m + 1]);
        }
        lemma_descend_list_eq(b1, b2, rest, path, w);
    }
}

/// Checking table boxes whose checks come out the same comes out the same.
proof fn lemma_tables_in_eq(b1: Seq<u8>, b2: Seq<u8>, kids: Seq<BoxHeader>)
    requires
        forall|i: int| 0 <= i < kids.len() ==> table_check(b2, #[trigger] kids[i]) == table_check(
            b1,
            kids[i],
        ),
    ensures
        tables_in(b2, kids) == tables_in(b1, kids),
    decreases kids.len(),
{
    if kids.len() > 0 {
        let rest = kids.drop_first();
        assert forall|i: int| 0 <= i < rest.len() implies table_check(b2, #[trigger] rest[i])
            == table_check(b1, rest[i]) by {
            assert(rest[i] == kids[i + 1]);
        }
        lemma_tables_in_eq(b1, b2, rest);
        assert(table_check(b2, kids[0]) == table_check(b1, kids[0]));
    }
}

/// A box's check reads its count, which lies outside the entries of every
/// table box among its siblings.
proof fn lemma_table_check_frame(b1: Seq<u8>, b2: Seq<u8>, kids: Seq<BoxHeader>, m: int, ts: Seq<BoxHeader>)
    requires
        0 <= m < kids.len(),
        forall|i: int| 0 <= i < kids.len() ==> (#[trigger] kids[i]).wf(),
        ordered(kids),
        forall|i: int| 0 <= i < ts.len() ==> kids.contains(#[trigger] ts[i]),
        forall|x: int|
            kids[m].offset <= x < kids[m].end_pos() && b1[x] != b2[x] ==> in_entries(ts, x),
    ensures
        table_check(b2, kids[m]) == table_check(b1, kids[m]),
{
    let k = kids[m];
    let p = k.payload();
    if k.end_pos() - p >= 8 {
        assert forall|x: int| p + 4 <= x < p + 8 implies b1[x] == b2[x] by {
            if b1[x] != b2[x] {
                let i = choose|i: int|
                    0 <= i < ts.len() && (#[trigger] ts[i]).payload() + 8 <= x < ts[i].end_pos();
                let t = ts[i];
                assert(kids.contains(t));
                let n = choose|n: int| 0 <= n < kids.len() && kids[n] == t;
                if n < m {
                    assert(kids[n].end_pos() <= kids[m].offset);
                } else if n > m {
                    assert(kids[m].end_pos() <= kids[n].offset);
                }
            }
        }
        assert(be32(b2, p + 4) == be32(b1, p + 4));
    }
}

/// A successful walk over siblings walked successfully below each of them
/// of the next type.
proof fn lemma_descend_list_each_ok(b: Seq<u8>, kids: Seq<BoxHeader>, path: Seq<FourCc>, w: Gather)
    requires
        path.len() > 0,
        descend_list(b, kids, path, w) is Ok,
    ensures
        forall|m: int|
            0 <= m < kids.len() && (#[trigger] kids[m]).kind == path[0] ==> descend(
                b,
                kids[m],
                path.drop_first(),
                w,
            ) is Ok,
    decreases kids.len(),
{
    if kids.len() > 0 {
        let rest = kids.drop_first();
        lemma_descend_list_each_ok(b, rest, path, w);
        assert forall|m: int| 0 <= m < kids.len() && (#[trigger] kids[m]).kind == path[0] implies descend(
            b,
            kids[m],
            path.drop_first(),
            w,
        ) is Ok by {
            if m > 0 {
                assert(kids[m] == rest[m - 1]);
            }
        }
    }
}

/// Kid `m` of `kids` holds `t`, and the walk below it found `t` when there
/// is a walk below the kids.
pub open spec fn kid_holds(b: Seq<u8>, kids: Seq<BoxHeader>, path: Seq<FourCc>, m: int, t: BoxHeader) -> bool {
    &&& 0 <= m < kids.len()
    &&& kids[m].offset <= t.offset
    &&& t.end_pos() <= kids[m].end_pos()
    &&& path.len() > 0 ==> kids[m].kind == path[0] && descend(
        b,
        kids[m],
        path.drop_first(),
        Gather::ChunkTables,
    ).unwrap().contains(t)
}

/// One of `kids` holds `t` (see [`kid_holds`]).
pub open spec fn some_kid_holds(b: Seq<u8>, kids: Seq<BoxHeader>, path: Seq<FourCc>, t: BoxHeader) -> bool {
    exists|m: int| kid_holds(b, kids, path, m, t)
}

/// Each table box a walk finds lies in one of the kids of the box the walk
/// starts from.
pub proof fn lemma_found_in_kid(b1: Seq<u8>, h: BoxHeader, path: Seq<FourCc>)
    requires
        h.wf(),
        b1.len() <= u64::MAX,
        descend(b1, h, path, Gather::ChunkTables) is Ok,
    ensures
        spec_container_children(b1, h) is Ok,
        forall|i: int|
            0 <= i < descend(b1, h, path, Gather::ChunkTables).unwrap().len() ==> some_kid_holds(
                b1,
                spec_container_children(b1, h).unwrap(),
                path,
                #[trigger] descend(b1, h, path, Gather::ChunkTables).unwrap()[i],
            ),
{
    let w = Gather::ChunkTables;
    let s = descend(b1, h, path, w).unwrap();
    lemma_container_children_ok(b1, h);
    let kids = spec_container_children(b1, h).unwrap();
    let tail = path.drop_first();
    if path.len() == 0 {
        lemma_tables_in_ok(b1, kids);
    } else {
        lemma_descend_list_members(b1, kids, path, w);
    }
    assert forall|i: int| 0 <= i < s.len() implies some_kid_holds(b1, kids, path, #[trigger] s[i]) by {
        if path.len() == 0 {
            assert(kids.contains(s[i]));
            let m = choose|m: int| 0 <= m < kids.len() && kids[m] == s[i];
            assert(kid_holds(b1, kids, path, m, s[i]));
        } else {
            assert(from_some_kid(b1, kids, path, w, s[i]));
            let m = choose|m: int|
                0 <= m < kids.len() && (#[trigger] kids[m]).kind == path[0] && descend(
                    b1,
                    kids[m],
                    tail,
                    w,
                ) is Ok && descend(b1, kids[m], tail, w).unwrap().contains(s[i]);
            lemma_descend_placed(b1, kids[m], tail, w);
            let r = descend(b1, kids[m], tail, w).unwrap();
            let n = choose|n: int| 0 <= n < r.len() && r[n] == s[i];
            assert(r[n] == s[i]);
            assert(kid_holds(b1, kids, path, m, s[i]));
        }
    }
}

/// A walk for chunk tables gives the same tables in a buffer that differs
/// only inside the entries of the tables it finds.
#[verifier::rlimit(60)]
pub proof fn lemma_descend_frame(b1: Seq<u8>, b2: Seq<u8>, h: BoxHeader, path: Seq<FourCc>)
    requires
        h.wf(),
        h.end_pos() <= b1.len(),
        b1.len() == b2.len(),
        b1.len() <= u64::MAX,
        h.kind != meta(),
        plain_path(path),
        descend(b1, h, path, Gather::ChunkTables) is Ok,
        forall|x: int|
            h.offset <= x < h.end_pos() && b1[x] != b2[x] ==> in_entries(
                descend(b1, h, path, Gather::ChunkTables).unwrap(),
                x,
            ),
    ensures
        descend(b2, h, path, Gather::ChunkTables) == descend(b1, h, path, Gather::ChunkTables),
    decreases path.len(), 1nat,
{
    let w = Gather::ChunkTables;
    let s = descend(b1, h, path, w).unwrap();
    let p = h.payload();
    let e = h.end_pos();
    lemma_found_in_kid(b1, h, path);
    lemma_container_children_ok(b1, h);
    lemma_children_ok(b1, p, e);
    let kids = spec_container_children(b1, h).unwrap();
    lemma_descend_ok(b1, h, path, w);
    assert forall|x: int| p <= x < e && b1[x] != b2[x] implies deep_in(kids, x) by {
        let i = choose|i: int| 0 <= i < s.len() && (#[trigger] s[i]).payload() + 8 <= x < s[i].end_pos();
        assert(gathered_ok(b1, s[i], w));
        assert(some_kid_holds(b1, kids, path, s[i]));
        let m = choose|m: int| kid_holds(b1, kids, path, m, s[i]);
        assert(kids[m].offset + 16 <= x < kids[m].end_pos());
    }
    lemma_children_frame(b1, b2, p, e, kids);
    assert(spec_container_children(b2, h) == Ok::<_, Mp4Error>(kids));
    if path.len() == 0 {
        lemma_tables_in_ok(b1, kids);
        assert forall|m: int| 0 <= m < kids.len() implies table_check(b2, #[trigger] kids[m])
            == table_check(b1, kids[m]) by {
            lemma_table_check_frame(b1, b2, kids, m, s);
        }
        lemma_tables_in_eq(b1, b2, kids);
    } else {
        lemma_descend_list_each_ok(b1, kids, path, w);
        assert forall|m: int| 0 <= m < kids.len() && (#[trigger] kids[m]).kind == path[0] implies descend(
            b2,
            kids[m],
            path.drop_first(),
            w,
        ) == descend(b1, kids[m], path.drop_first(), w) by {
            lemma_kid_frame(b1, b2, h, path, m);
        }
        lemma_descend_list_eq(b1, b2, kids, path, w);
    }
}

/// [`lemma_descend_frame`] below one kid.
#[verifier::rlimit(60)]
proof fn lemma_kid_frame(b1: Seq<u8>, b2: Seq<u8>, h: BoxHeader, path: Seq<FourCc>, m: int)
    requires
        path.len() > 0,
        h.wf(),
        h.end_pos() <= b1.len(),
        b1.len() == b2.len(),
        b1.len() <= u64::MAX,
        h.kind != meta(),
        plain_path(path),
        descend(b1, h, path, Gather::ChunkTables) is Ok,
        forall|x: int|
            h.offset <= x < h.end_pos() && b1[x] != b2[x] ==> in_entries(
                descend(b1, h, path, Gather::ChunkTables).unwrap(),
                x,
            ),
        spec_container_children(b1, h) is Ok,
        0 <= m < spec_container_children(b1, h).unwrap().len(),
        spec_container_children(b1, h).unwrap()[m].kind == path[0],
    ensures
        descend(b2, spec_container_children(b1, h).unwrap()[m], path.drop_first(), Gather::ChunkTables)
            == descend(
            b1,
            spec_container_children(b1, h).unwrap()[m],
            path.drop_first(),
            Gather::ChunkTables,
        ),
    decreases path.len(), 0nat,
{
    let w = Gather::ChunkTables;
    let s = descend(b1, h, path, w).unwrap();
    let tail = path.drop_first();
    let kids = spec_container_children(b1, h).unwrap();
    let k = kids[m];
    lemma_found_in_kid(b1, h, path);
    lemma_container_children_ok(b1, h);
    lemma_children_ok(b1, h.payload(), h.end_pos());
    assert(descend(b1, h, path, w) == descend_list(b1, kids, path, w));
    lemma_descend_list_each_ok(b1, kids, path, w);
    let sk = descend(b1, k, tail, w).unwrap();
    assert forall|x: int| k.offset <= x < k.end_pos() && b1[x] != b2[x] implies in_entries(sk, x) by {
        let i = choose|i: int| 0 <= i < s.len() && (#[trigger] s[i]).payload() + 8 <= x < s[i].end_pos();
        assert(some_kid_holds(b1, kids, path, s[i]));
        let m2 = choose|m2: int| kid_holds(b1, kids, path, m2, s[i]);
        if m2 < m {
            assert(kids[m2].end_pos() <= kids[m].offset);
        } else if m2 > m {
            assert(kids[m].end_pos() <= kids[m2].offset);
        }
        let n = choose|n: int| 0 <= n < sk.len() && sk[n] == s[i];
        assert(sk[n].payload() + 8 <= x < sk[n].end_pos());
    }
    assert(plain_path(tail)) by {
        assert forall|i: int| 0 <= i < tail.len() implies tail[i] != meta() by {
            assert(tail[i] == path[i + 1]);
        }
    }
    lemma_descend_frame(b1, b2, k, tail);
}

} // verus!
