//! Why the output of a plan passes the comparison of input and output
//! `moov` boxes: the rebuilt `moov` holds the new cover alone and the same
//! tables, and patching rewrites table entries only, moving exactly the
//! offsets the comparison expects to move.

use vstd::prelude::*;

use super::box_header::{kind_at, spec_parse, BoxHeader};
use super::cover_law::{
    adds_nothing, after_first, holds_no_cover, kid_bytes, lemma_descend_list_one, lemma_later_kid_nothing,
    lemma_no_cover_empty, lemma_level_child, lemma_level_facts,
    level_hdp, level_j, level_kids, level_ps, level_x,
};
use super::pieces::{one_box, flat, header_of, headers_of, lemma_flat_at, lemma_flat_concat, lemma_headers_kinds};
use super::rebuild::{lemma_rebuild_len, spec_replace_cover};
use super::tables_law::{
    cover_ready, law_rebuilt_moov_passes_check, law_rebuilt_then_patched, law_replace_cover_keeps_tables,
    lemma_moov_pieces,
};
use super::verify::{lemma_check_counts_entries, expected_offset, first_mismatch, spec_check_moov_pair, tables_check, MoovExpectation};
use super::be::{be32, be64};
use super::cover_law::cover_path_clean;
use super::rebuild::growth;
use super::error::Mp4Error;
use super::finder::{
    co64, covers_path, covr, descend, gathered_ok, lemma_children_ok, lemma_chunk_tables_ok, lemma_descend_ok, lemma_descend_placed,
    lemma_moov_header_ok, mdia, meta, minf, moov, spec_chunk_tables, spec_container_children,
    spec_find_covr, stbl, sum_counts, trak, udta, spec_moov_header, table_check, table_of, tables_path,
    ChunkTable, Gather,
};
use super::frame_law::{
    deep_in, in_entries, kid_holds, lemma_children_frame, lemma_descend_frame, lemma_found_in_kid,
    lemma_read_frame, some_kid_holds,
};
use super::tables_law::{lemma_no_cover_moved, moved, plain_path};
use super::planner::{
    entries_of, lemma_entries_valid, lemma_segs_prefix, spec_normalize, spec_patch, spec_plan_moov,
    SegmentView, Strategy,
};
use super::rebuild::first_of;
use super::shift_law::{
    fold_inv, lemma_chunk_tables_apart, lemma_entries_apart, lemma_entries_member, lemma_fold_values,
    outside, patched_value,
};

verus! {

/// Patching changes only bytes inside the entries of the tables that the
/// walk from `moov` finds.
pub proof fn lemma_patch_differs_in_entries(buf: Seq<u8>, old_moov: BoxHeader, delta: i64)
    requires
        buf.len() <= usize::MAX,
        spec_patch(buf, old_moov, delta) is Ok,
    ensures
        spec_moov_header(buf) is Ok,
        descend(buf, spec_moov_header(buf).unwrap(), tables_path(), Gather::ChunkTables) is Ok,
        spec_patch(buf, old_moov, delta).unwrap().0.len() == buf.len(),
        forall|x: int|
            0 <= x < buf.len() && buf[x] != spec_patch(buf, old_moov, delta).unwrap().0[x]
                ==> in_entries(
                descend(buf, spec_moov_header(buf).unwrap(), tables_path(), Gather::ChunkTables).unwrap(),
                x,
            ),
{
    let w = Gather::ChunkTables;
    lemma_moov_header_ok(buf);
    let h = spec_moov_header(buf).unwrap();
    let hs = descend(buf, h, tables_path(), w).unwrap();
    let ts = spec_chunk_tables(buf).unwrap();
    assert(ts == hs.map_values(|t: BoxHeader| table_of(buf, t)));
    lemma_chunk_tables_ok(buf);
    lemma_entries_valid(ts, buf.len() as int);
    lemma_chunk_tables_apart(buf);
    lemma_entries_apart(ts);
    let es = entries_of(ts);
    lemma_fold_values(buf, es, old_moov.offset as int, old_moov.end_pos(), delta);
    let out = spec_patch(buf, old_moov, delta).unwrap().0;
    assert(fold_inv(buf, es, out, old_moov.end_pos(), delta));
    lemma_entries_member(ts);
    lemma_descend_ok(buf, h, tables_path(), w);
    assert forall|x: int| 0 <= x < buf.len() && buf[x] != out[x] implies in_entries(hs, x) by {
        assert(!outside(es, x));
        let k = choose|k: int|
            0 <= k < es.len() && !(x < (#[trigger] es[k]).0.entry_pos(es[k].1) || es[k].0.entry_pos(
                es[k].1,
            ) + es[k].0.width() <= x);
        let a = choose|a: int|
            0 <= a < ts.len() && (#[trigger] es[k]).0 == ts[a] && 0 <= es[k].1 < ts[a].count;
        assert(gathered_ok(buf, hs[a], w));
        assert(table_check(buf, hs[a]) is Ok);
        let t = ts[a];
        assert(t == table_of(buf, hs[a]));
        assert(hs[a].payload() + 8 <= x < hs[a].end_pos());
    }
}

/// The types on the way to the chunk offset tables are not `meta`.
proof fn lemma_tables_path_plain()
    ensures
        plain_path(tables_path()),
        moov() != meta(),
{
    broadcast use vstd::array::group_array_axioms;

    assert(trak().0[0] != meta().0[0]);
    assert(mdia().0[1] != meta().0[1]);
    assert(minf().0[1] != meta().0[1]);
    assert(stbl().0[0] != meta().0[0]);
    assert(moov().0[1] != meta().0[1]);
}

/// After patching, the `moov` header and its chunk offset tables read as
/// before.
pub proof fn lemma_patched_tables(buf: Seq<u8>, old_moov: BoxHeader, delta: i64)
    requires
        buf.len() <= usize::MAX,
        spec_patch(buf, old_moov, delta) is Ok,
    ensures
        spec_moov_header(spec_patch(buf, old_moov, delta).unwrap().0) == spec_moov_header(buf),
        spec_chunk_tables(spec_patch(buf, old_moov, delta).unwrap().0) == spec_chunk_tables(buf),
{
    let w = Gather::ChunkTables;
    let out = spec_patch(buf, old_moov, delta).unwrap().0;
    lemma_patch_differs_in_entries(buf, old_moov, delta);
    lemma_moov_header_ok(buf);
    lemma_tables_path_plain();
    let h = spec_moov_header(buf).unwrap();
    let hs = descend(buf, h, tables_path(), w).unwrap();
    lemma_descend_ok(buf, h, tables_path(), w);
    lemma_descend_placed(buf, h, tables_path(), w);
    // The header bytes are untouched.
    let n = buf.len() as int;
    assert forall|x: int| 0 <= x < 16 && x < n implies buf[x] == out[x] by {
        if buf[x] != out[x] {
            let i = choose|i: int| 0 <= i < hs.len() && (#[trigger] hs[i]).payload() + 8 <= x < hs[i].end_pos();
            assert(gathered_ok(buf, hs[i], w));
        }
    }
    let d1 = buf.subrange(0, n);
    let d2 = out.subrange(0, n);
    if n > 0 {
        lemma_read_frame(d1, d2, 0, n as u64);
    }
    assert(spec_parse(out, 0, n) == spec_parse(buf, 0, n));
    assert(spec_moov_header(out) == spec_moov_header(buf));
    // The walk finds the same table boxes.
    lemma_descend_frame(buf, out, h, tables_path());
    // Their counts are untouched.
    assert forall|i: int| 0 <= i < hs.len() implies table_of(out, #[trigger] hs[i]) == table_of(buf, hs[i]) by {
        let t = hs[i];
        let p = t.payload();
        assert forall|x: int| p + 4 <= x < p + 8 implies buf[x] == out[x] by {
            assert(gathered_ok(buf, t, w));
            if buf[x] != out[x] {
                let k = choose|k: int| 0 <= k < hs.len() && (#[trigger] hs[k]).payload() + 8 <= x < hs[k].end_pos();
                if k < i {
                    assert(hs[k].end_pos() <= hs[i].offset);
                } else if k > i {
                    assert(hs[i].end_pos() <= hs[k].offset);
                }
            }
        }
    }
    assert(hs.map_values(|t: BoxHeader| table_of(out, t)) =~= hs.map_values(|t: BoxHeader| table_of(buf, t)));
}

/// A `udta` after the rebuilt one in a rebuilt `moov` holds no cover.
#[verifier::rlimit(100)]
#[verifier::spinoff_prover]
proof fn lemma_rebuilt_moov_later(moov_buf: Seq<u8>, covr_box: Seq<u8>, i: int)
    requires
        cover_ready(moov_buf, covr_box),
    ensures
        ({
            let h = spec_moov_header(moov_buf).unwrap();
            let r = spec_replace_cover(moov_buf, covr_box).unwrap().0;
            let hr = header_of(r, 0);
            let kids = level_kids(moov_buf, h);
            let j = level_j(moov_buf, h, covers_path());
            let x = level_x(moov_buf, h, covers_path(), covr_box);
            let ka = kid_bytes(moov_buf, kids.take(j));
            let kb = kid_bytes(moov_buf, after_first(kids, j));
            let ps = ka + (seq![x] + kb);
            let hs = headers_of(ps, hr.payload());
            ka.len() < i < hs.len() && hs[i].kind == udta() ==> holds_no_cover(
                r,
                hs[i],
                covers_path().drop_first(),
            )
        }),
{
    let cp = covers_path();
    lemma_moov_pieces(moov_buf, covr_box);
    lemma_moov_header_ok(moov_buf);
    let h = spec_moov_header(moov_buf).unwrap();
    let r = spec_replace_cover(moov_buf, covr_box).unwrap().0;
    let hr = header_of(r, 0);
    let kids = level_kids(moov_buf, h);
    let j = level_j(moov_buf, h, cp);
    let x = level_x(moov_buf, h, cp, covr_box);
    let ka = kid_bytes(moov_buf, kids.take(j));
    let kb = kid_bytes(moov_buf, after_first(kids, j));
    let ps = ka + (seq![x] + kb);
    let pa = hr.payload();
    let hs = headers_of(ps, pa);
    assert(cp.skip(0) =~= cp);
    assert(cp[0] == udta());
    lemma_level_facts(moov_buf, h, cp, covr_box);
    reveal(level_ps);
    assert(level_hdp(moov_buf, h) =~= Seq::<Seq<u8>>::empty());
    assert(level_ps(moov_buf, h, cp, covr_box) =~= ps);
    if ka.len() < i < hs.len() && hs[i].kind == udta() {
        lemma_flat_concat(ka, seq![x] + kb);
        lemma_flat_concat(seq![x], kb);
        assert(flat(seq![x]) =~= x) by {
            assert(seq![x].drop_first() =~= Seq::<Seq<u8>>::empty());
            assert(flat(Seq::<Seq<u8>>::empty()) == Seq::<u8>::empty());
            assert(flat(seq![x]) == x + flat(Seq::<Seq<u8>>::empty()));
        }
        lemma_headers_kinds(ps, pa);
        lemma_later_kid_nothing(moov_buf, h, cp, covr_box, r, pa, i);
    }
}

/// The children of a rebuilt `moov`, where the rebuilt `udta` sits among
/// them, and that no `udta` after it holds a cover.
#[verifier::rlimit(100)]
#[verifier::spinoff_prover]
pub proof fn lemma_rebuilt_moov_kinds(moov_buf: Seq<u8>, covr_box: Seq<u8>)
    requires
        cover_ready(moov_buf, covr_box),
    ensures
        ({
            let h = spec_moov_header(moov_buf).unwrap();
            let r = spec_replace_cover(moov_buf, covr_box).unwrap().0;
            let hr = header_of(r, 0);
            let kids = level_kids(moov_buf, h);
            let j = level_j(moov_buf, h, covers_path());
            let x = level_x(moov_buf, h, covers_path(), covr_box);
            let ka = kid_bytes(moov_buf, kids.take(j));
            let kb = kid_bytes(moov_buf, after_first(kids, j));
            let ps = ka + (seq![x] + kb);
            let pa = hr.payload();
            let hs = headers_of(ps, pa);
            let mx = ka.len() as int;
            let px = pa + flat(ka).len();
            &&& spec_moov_header(r) == Ok::<_, Mp4Error>(hr)
            &&& spec_container_children(r, hr) == Ok::<_, Mp4Error>(hs)
            &&& 0 <= mx < hs.len()
            &&& hs[mx] == header_of(x, px)
            &&& hs[mx].kind == udta()
            &&& forall|i: int| 0 <= i < mx ==> (#[trigger] hs[i]).kind != udta()
            &&& forall|i: int|
                mx < i < hs.len() && (#[trigger] hs[i]).kind == udta() ==> holds_no_cover(
                    r,
                    hs[i],
                    covers_path().drop_first(),
                )
            &&& pa <= px
            &&& px + x.len() <= hr.end_pos()
            &&& hr.end_pos() == r.len()
            &&& r.subrange(px, px + x.len()) == x
        }),
{
    let cp = covers_path();
    lemma_moov_pieces(moov_buf, covr_box);
    lemma_moov_header_ok(moov_buf);
    let h = spec_moov_header(moov_buf).unwrap();
    let r = spec_replace_cover(moov_buf, covr_box).unwrap().0;
    let hr = header_of(r, 0);
    let kids = level_kids(moov_buf, h);
    let j = level_j(moov_buf, h, cp);
    let x = level_x(moov_buf, h, cp, covr_box);
    let ka = kid_bytes(moov_buf, kids.take(j));
    let kb = kid_bytes(moov_buf, after_first(kids, j));
    let ps = ka + (seq![x] + kb);
    let pa = hr.payload();
    let hs = headers_of(ps, pa);
    let mx = ka.len() as int;
    assert(cp.skip(0) =~= cp);
    lemma_tables_path_plain();
    lemma_level_facts(moov_buf, h, cp, covr_box);
    reveal(level_ps);
    assert(level_hdp(moov_buf, h) =~= Seq::<Seq<u8>>::empty());
    assert(level_ps(moov_buf, h, cp, covr_box) =~= ps);
    lemma_headers_kinds(ps, pa);
    lemma_flat_at(ps, mx, pa);
    assert(ps.take(mx) =~= ka);
    let px = pa + flat(ka).len();
    assert(cp[0] == udta());
    assert forall|i: int| 0 <= i < mx implies (#[trigger] hs[i]).kind != udta() by {
        assert(hs[i].kind == kind_at(ps[i], 4));
    }
    assert forall|i: int| mx < i < hs.len() && (#[trigger] hs[i]).kind == udta() implies holds_no_cover(
        r,
        hs[i],
        cp.drop_first(),
    ) by {
        lemma_rebuilt_moov_later(moov_buf, covr_box, i);
    }
    assert(ps[mx] == x);
    lemma_flat_concat(ka, seq![x] + kb);
    lemma_flat_concat(seq![x], kb);
    assert(flat(seq![x]) =~= x) by {
        assert(seq![x].drop_first() =~= Seq::<Seq<u8>>::empty());
        assert(flat(Seq::<Seq<u8>>::empty()) == Seq::<u8>::empty());
        assert(flat(seq![x]) == x + flat(Seq::<Seq<u8>>::empty()));
    }
    assert(pa + flat(ps).len() <= r.len());
    let l = flat(ka).len() as int;
    assert(l + x.len() <= flat(ps).len());
    assert(flat(ps).subrange(l, l + x.len()) == x);
    assert(r.subrange(pa, pa + flat(ps).len()) == flat(ps));
    assert forall|k: int| 0 <= k < x.len() implies r[px + k] == x[k] by {
        assert(r[px + k] == r.subrange(pa, pa + flat(ps).len())[l + k]);
        assert(flat(ps)[l + k] == flat(ps).subrange(l, l + x.len())[k]);
    }
    assert(r.subrange(px, px + x.len()) =~= x);
}

/// After patching a rebuilt `moov`, the walk `udta/meta/ilst` still finds
/// the new cover alone.
#[verifier::rlimit(100)]
#[verifier::spinoff_prover]
pub proof fn lemma_patched_cover(moov_buf: Seq<u8>, covr_box: Seq<u8>, old_moov: BoxHeader, delta: i64)
    requires
        cover_ready(moov_buf, covr_box),
        spec_patch(spec_replace_cover(moov_buf, covr_box).unwrap().0, old_moov, delta) is Ok,
    ensures
        ({
            let out = spec_patch(spec_replace_cover(moov_buf, covr_box).unwrap().0, old_moov, delta).unwrap().0;
            spec_find_covr(out) matches Ok(cs) && cs.len() == 1 && cs[0].size == covr_box.len()
        }),
{
    let cp = covers_path();
    let tp = tables_path();
    lemma_rebuilt_moov_kinds(moov_buf, covr_box);
    lemma_moov_header_ok(moov_buf);
    let h = spec_moov_header(moov_buf).unwrap();
    let r = spec_replace_cover(moov_buf, covr_box).unwrap().0;
    let out = spec_patch(r, old_moov, delta).unwrap().0;
    let hr = header_of(r, 0);
    let kids = level_kids(moov_buf, h);
    let j = level_j(moov_buf, h, cp);
    let x = level_x(moov_buf, h, cp, covr_box);
    let ka = kid_bytes(moov_buf, kids.take(j));
    let kb = kid_bytes(moov_buf, after_first(kids, j));
    let ps = ka + (seq![x] + kb);
    let pa = hr.payload();
    let hs = headers_of(ps, pa);
    let mx = ka.len() as int;
    let px = pa + flat(ka).len();
    let xe = px + x.len();
    assert(cp.skip(0) =~= cp);
    assert(cp[0] == udta());
    // Patching changes nothing the cover walk reads.
    lemma_rebuild_len(moov_buf, h, cp, covr_box);
    lemma_patch_differs_in_entries(r, old_moov, delta);
    lemma_patched_tables(r, old_moov, delta);
    lemma_tables_path_plain();
    let tabs = descend(r, hr, tp, Gather::ChunkTables).unwrap();
    lemma_found_in_kid(r, hr, tp);
    lemma_descend_ok(r, hr, tp, Gather::ChunkTables);
    lemma_children_ok(r, pa, hr.end_pos());
    assert forall|y: int| pa <= y < hr.end_pos() && r[y] != out[y] implies deep_in(hs, y) by {
        let i = choose|i: int| 0 <= i < tabs.len() && (#[trigger] tabs[i]).payload() + 8 <= y < tabs[i].end_pos();
        assert(gathered_ok(r, tabs[i], Gather::ChunkTables));
        assert(some_kid_holds(r, hs, tp, tabs[i]));
        let m = choose|m: int| kid_holds(r, hs, tp, m, tabs[i]);
        assert(hs[m].offset + 16 <= y < hs[m].end_pos());
    }
    lemma_children_frame(r, out, pa, hr.end_pos(), hs);
    assert(spec_container_children(out, hr) == Ok::<_, Mp4Error>(hs));
    // The rebuilt `udta` is untouched.
    assert forall|y: int| px <= y < xe implies r[y] == out[y] by {
        if r[y] != out[y] {
            let i = choose|i: int| 0 <= i < tabs.len() && (#[trigger] tabs[i]).payload() + 8 <= y < tabs[i].end_pos();
            assert(some_kid_holds(r, hs, tp, tabs[i]));
            let m = choose|m: int| kid_holds(r, hs, tp, m, tabs[i]);
            assert(hs[m].kind == trak());
            assert(m != mx) by {
                broadcast use vstd::array::group_array_axioms;

                assert(udta().0[0] != trak().0[0]);
            }
            if m < mx {
                assert(hs[m].end_pos() <= hs[mx].offset);
            } else {
                assert(hs[mx].end_pos() <= hs[m].offset);
            }
        }
    }
    assert(out.subrange(px, xe) =~= r.subrange(px, xe));
    let c = lemma_level_child(moov_buf, h, cp, covr_box, out, px, hr.end_pos());
    // Every other `udta` is untouched too, and so still holds no cover.
    assert forall|i: int| 0 <= i < hs.len() && i != mx implies #[trigger] adds_nothing(
        out,
        hs[i],
        cp,
        Gather::CoverItems,
    ) by {
        if hs[i].kind == udta() {
            let k = hs[i];
            assert forall|y: int| k.offset <= y < k.end_pos() implies r[y] == out[y] by {
                if r[y] != out[y] {
                    let t = choose|t: int| 0 <= t < tabs.len() && (#[trigger] tabs[t]).payload() + 8 <= y < tabs[t].end_pos();
                    assert(some_kid_holds(r, hs, tp, tabs[t]));
                    let m = choose|m: int| kid_holds(r, hs, tp, m, tabs[t]);
                    assert(hs[m].kind == trak());
                    assert(m != i) by {
                        broadcast use vstd::array::group_array_axioms;

                        assert(udta().0[0] != trak().0[0]);
                    }
                    if m < i {
                        assert(hs[m].end_pos() <= hs[i].offset);
                    } else {
                        assert(hs[i].end_pos() <= hs[m].offset);
                    }
                }
            }
            assert(r.subrange(k.offset as int, k.end_pos()) =~= out.subrange(k.offset + 0, k.end_pos() + 0));
            assert(moved(k, 0) == k);
            lemma_no_cover_moved(r, k, cp.drop_first(), out, 0);
            lemma_no_cover_empty(out, k, cp.drop_first());
        }
    }
    lemma_descend_list_one(out, hs, cp, Gather::CoverItems, mx);
}

/// No entry mismatches when each output entry is where the comparison
/// expects it.
proof fn lemma_no_mismatch_expected(
    b1: Seq<u8>,
    b2: Seq<u8>,
    t1: ChunkTable,
    t2: ChunkTable,
    want: MoovExpectation,
    n: int,
)
    requires
        n <= t1.count,
        forall|i: int|
            0 <= i < t1.count ==> t2.entry(b2, i) == expected_offset(t1.entry(b1, i) as u64, want),
    ensures
        first_mismatch(b1, b2, t1, t2, want, n) is None,
    decreases n,
{
    if n > 0 {
        lemma_no_mismatch_expected(b1, b2, t1, t2, want, n - 1);
    }
}

/// Tables that match one for one in type and count, with every output
/// entry where the comparison expects it, pass the comparison.
proof fn lemma_tables_check_expected(
    b1: Seq<u8>,
    b2: Seq<u8>,
    ta: Seq<ChunkTable>,
    tb: Seq<ChunkTable>,
    want: MoovExpectation,
    k: int,
)
    requires
        ta.len() == tb.len(),
        k <= ta.len(),
        forall|m: int| 0 <= m < ta.len() ==> (#[trigger] ta[m]).kind == tb[m].kind && ta[m].count == tb[m].count,
        forall|m: int, i: int|
            0 <= m < ta.len() && 0 <= i < ta[m].count ==> #[trigger] tb[m].entry(b2, i) == expected_offset(
                ta[m].entry(b1, i) as u64,
                want,
            ),
    ensures
        tables_check(b1, b2, ta, tb, want, k) is Ok,
    decreases k,
{
    if k > 0 {
        lemma_tables_check_expected(b1, b2, ta, tb, want, k - 1);
        let t1 = ta[k - 1];
        let t2 = tb[k - 1];
        assert forall|i: int| 0 <= i < t1.count implies t2.entry(b2, i) == expected_offset(
            t1.entry(b1, i) as u64,
            want,
        ) by {
            assert(tb[k - 1].entry(b2, i) == expected_offset(ta[k - 1].entry(b1, i) as u64, want));
        }
        lemma_no_mismatch_expected(b1, b2, t1, t2, want, t1.count as int);
    }
}

/// The output `moov` of a rewrite that shifts `mdat` passes the comparison
/// of input and output `moov` boxes: one cover, of the new cover's size;
/// the same tables; every chunk offset at or past the end of the old `moov`
/// moved by `delta` and every other one kept. Stated under the conditions of
/// the law on the cover, for an input whose tables can be read.
#[verifier::rlimit(60)]
pub proof fn law_patched_moov_passes_check(
    moov_buf: Seq<u8>,
    covr_box: Seq<u8>,
    old_moov: BoxHeader,
    delta: i64,
)
    requires
        one_box(covr_box),
        kind_at(covr_box, 4) == covr(),
        moov_buf.len() + covr_box.len() + growth(3) + 16 <= usize::MAX,
        spec_moov_header(moov_buf) matches Ok(h) ==> cover_path_clean(moov_buf, h, covers_path(), covr_box),
        spec_replace_cover(moov_buf, covr_box) is Ok,
        spec_chunk_tables(moov_buf) is Ok,
        old_moov.end_pos() <= u64::MAX,
        spec_patch(spec_replace_cover(moov_buf, covr_box).unwrap().0, old_moov, delta) is Ok,
    ensures
        spec_check_moov_pair(
            moov_buf,
            spec_patch(spec_replace_cover(moov_buf, covr_box).unwrap().0, old_moov, delta).unwrap().0,
            MoovExpectation {
                covr_len: covr_box.len() as usize,
                shift: delta,
                old_moov_end: old_moov.end_pos() as u64,
            },
        ) is Ok,
{
    let r = spec_replace_cover(moov_buf, covr_box).unwrap().0;
    let out = spec_patch(r, old_moov, delta).unwrap().0;
    let want = MoovExpectation {
        covr_len: covr_box.len() as usize,
        shift: delta,
        old_moov_end: old_moov.end_pos() as u64,
    };
    lemma_moov_header_ok(moov_buf);
    lemma_rebuild_len(moov_buf, spec_moov_header(moov_buf).unwrap(), covers_path(), covr_box);
    lemma_patched_cover(moov_buf, covr_box, old_moov, delta);
    lemma_patched_tables(r, old_moov, delta);
    law_replace_cover_keeps_tables(moov_buf, covr_box);
    lemma_chunk_tables_ok(moov_buf);
    let ta = spec_chunk_tables(moov_buf).unwrap();
    let tb = spec_chunk_tables(out).unwrap();
    assert(tb == spec_chunk_tables(r).unwrap());
    assert forall|m: int, i: int| 0 <= m < ta.len() && 0 <= i < ta[m].count implies #[trigger] tb[m].entry(
        out,
        i,
    ) == expected_offset(ta[m].entry(moov_buf, i) as u64, want) by {
        law_rebuilt_then_patched(moov_buf, covr_box, old_moov, delta, m, i);
        lemma_entry_fits(moov_buf, ta[m], i);
    }
    lemma_tables_check_expected(moov_buf, out, ta, tb, want, ta.len() as int);
}

/// Entries of a table fit in 64 bits.
proof fn lemma_entry_fits(b: Seq<u8>, t: ChunkTable, i: int)
    ensures
        0 <= t.entry(b, i) <= u64::MAX,
{
    let q = t.entry_pos(i);
    assert(0 <= be32(b, q) <= u32::MAX);
    if t.kind == co64() {
        assert(0 <= be32(b, q + 4) <= u32::MAX);
        assert(be32(b, q) * 0x1_0000_0000 <= u32::MAX * 0x1_0000_0000) by (nonlinear_arith)
            requires
                0 <= be32(b, q) <= u32::MAX,
        ;
        assert(be32(b, q) * 0x1_0000_0000 >= 0) by (nonlinear_arith)
            requires
                0 <= be32(b, q),
        ;
    }
}

/// A successful plan writes, in place of the input's `moov`, a `moov` that
/// passes the comparison with the input's `moov` (its size field made
/// explicit) under the expectation that the plan itself gives: one cover of
/// the new cover's size, and chunk offsets moved by the plan's shift.
/// Stated under the conditions of the laws on the cover and the tables.
#[verifier::rlimit(100)]
#[verifier::spinoff_prover]
pub proof fn law_plan_moov_passes_check(top: Seq<BoxHeader>, moov_buf: Seq<u8>, covr_box: Seq<u8>)
    requires
        spec_plan_moov(top, moov_buf, covr_box) is Ok,
        forall|i: int| 0 <= i < top.len() ==> (#[trigger] top[i]).end_pos() <= u64::MAX,
        one_box(covr_box),
        kind_at(covr_box, 4) == covr(),
        moov_buf.len() + covr_box.len() + growth(3) + 16 <= usize::MAX,
        spec_normalize(moov_buf, moov_buf.len() as u64) matches Ok(m1) ==> {
            &&& spec_moov_header(m1) matches Ok(h) ==> cover_path_clean(m1, h, covers_path(), covr_box)
            &&& spec_chunk_tables(m1) is Ok
        },
    ensures
        ({
            let p = spec_plan_moov(top, moov_buf, covr_box).unwrap();
            let m1 = spec_normalize(moov_buf, moov_buf.len() as u64).unwrap();
            let want = MoovExpectation {
                covr_len: p.covr_len as usize,
                shift: if p.strategy == Strategy::ShiftAndPatch {
                    p.delta as i64
                } else {
                    0i64
                },
                old_moov_end: p.old_moov.end_pos() as u64,
            };
            &&& p.segments[first_of(top, moov())] matches SegmentView::Bytes(nm)
                && spec_check_moov_pair(m1, nm, want) == Ok::<nat, Mp4Error>(
                sum_counts(spec_chunk_tables(m1).unwrap()) as nat,
            )
        }),
{
    reveal(spec_plan_moov);
    let p = spec_plan_moov(top, moov_buf, covr_box).unwrap();
    super::planner::lemma_plan_facts(top, moov_buf, covr_box);
    let idx = first_of(top, moov());
    let old_moov = top[idx];
    assert(moov_buf.len() == old_moov.size);
    let m1 = spec_normalize(moov_buf, old_moov.size).unwrap();
    assert(m1.len() == moov_buf.len());
    let rb = spec_replace_cover(m1, covr_box).unwrap();
    let delta = rb.0.len() - old_moov.size;
    lemma_moov_header_ok(m1);
    lemma_rebuild_len(m1, spec_moov_header(m1).unwrap(), covers_path(), covr_box);
    let nm = if p.strategy == Strategy::ShiftAndPatch {
        spec_patch(rb.0, old_moov, delta as i64).unwrap().0
    } else {
        rb.0
    };
    let n = top.len() as int;
    lemma_segs_prefix(top, idx + 1, n, idx, nm, p.strategy, delta);
    lemma_segs_prefix(top, idx, idx + 1, idx, nm, p.strategy, delta);
    assert(p.segments.take(idx + 1)[idx] == p.segments[idx]);
    if p.strategy == Strategy::ShiftAndPatch {
        law_patched_moov_passes_check(m1, covr_box, old_moov, delta as i64);
    } else {
        law_rebuilt_moov_passes_check(m1, covr_box, old_moov.end_pos() as u64);
    }
    let want = MoovExpectation {
        covr_len: p.covr_len as usize,
        shift: if p.strategy == Strategy::ShiftAndPatch {
            p.delta as i64
        } else {
            0i64
        },
        old_moov_end: p.old_moov.end_pos() as u64,
    };
    lemma_check_counts_entries(m1, nm, want);
}

} // verus!
