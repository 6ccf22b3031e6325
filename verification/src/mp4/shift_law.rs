//! Why patching moves exactly the chunk offsets it should: the entries of
//! the offset tables occupy disjoint bytes, so each write leaves every other
//! entry as it was.

use vstd::prelude::*;

use super::be::{lemma_be32_window, splice};
use super::box_header::BoxHeader;
use super::finder::{
    descend, gathered_ok, lemma_chunk_tables_ok, lemma_descend_ok, lemma_descend_placed,
    lemma_moov_header_ok, law_chunk_entry_write_read, spec_chunk_tables, spec_moov_header,
    stco, table_of, tables_path, co64, ChunkTable, Gather,
};
use super::planner::{entries_of, lemma_entries_valid, patch_fold, patch_step, shifted, spec_patch};

verus! {

/// The entries `es` occupy pairwise disjoint bytes.
pub open spec fn apart(es: Seq<(ChunkTable, int)>) -> bool {
    forall|a: int, b: int|
        #![trigger es[a], es[b]]
        0 <= a < es.len() && 0 <= b < es.len() && a != b ==> es[a].0.entry_pos(es[a].1)
            + es[a].0.width() <= es[b].0.entry_pos(es[b].1) || es[b].0.entry_pos(es[b].1)
            + es[b].0.width() <= es[a].0.entry_pos(es[a].1)
}

/// Byte `p` belongs to none of the entries `es`.
pub open spec fn outside(es: Seq<(ChunkTable, int)>, p: int) -> bool {
    forall|k: int|
        0 <= k < es.len() ==> p < (#[trigger] es[k]).0.entry_pos(es[k].1) || es[k].0.entry_pos(
            es[k].1,
        ) + es[k].0.width() <= p
}

/// The value an offset `v` has once patched: moved by `delta` when it points
/// at or past `end`, kept otherwise.
pub open spec fn patched_value(v: int, end: int, delta: i64) -> int {
    if v >= end {
        shifted(v as u64, delta) as int
    } else {
        v
    }
}

/// An entry depends only on its own bytes.
proof fn lemma_entry_frame(t: ChunkTable, i: int, a: Seq<u8>, b: Seq<u8>)
    requires
        0 <= i,
        t.entry_pos(i) + t.width() <= a.len(),
        t.entry_pos(i) + t.width() <= b.len(),
        forall|p: int| t.entry_pos(i) <= p < t.entry_pos(i) + t.width() ==> a[p] == b[p],
    ensures
        t.entry(a, i) == t.entry(b, i),
{
    let q = t.entry_pos(i);
    assert(a.subrange(q, q + 4) =~= b.subrange(q, q + 4));
    lemma_be32_window(a, q, b, q);
    if t.kind == co64() {
        assert(a.subrange(q + 4, q + 8) =~= b.subrange(q + 4, q + 8));
        lemma_be32_window(a, q + 4, b, q + 4);
    }
}

/// Entry `i` of a table lies inside a buffer its table fits.
proof fn lemma_entry_inside(t: ChunkTable, i: int, len: int)
    requires
        0 <= i < t.count,
        t.fits(len),
    ensures
        0 <= t.entry_pos(i),
        t.entry_pos(i) + t.width() <= len,
{
}

/// One patch step writes only its own entry, which then holds its patched
/// value.
proof fn lemma_step_write(buf: Seq<u8>, e: (ChunkTable, int), start: int, end: int, delta: i64)
    requires
        0 <= e.1 < e.0.count,
        e.0.fits(buf.len() as int),
    ensures
        patch_step(buf, e, start, end, delta) matches Ok(st) ==> {
            &&& st.0.len() == buf.len()
            &&& e.0.entry(st.0, e.1) == patched_value(e.0.entry(buf, e.1), end, delta)
            &&& forall|p: int|
                0 <= p < buf.len() && (p < e.0.entry_pos(e.1) || e.0.entry_pos(e.1) + e.0.width()
                    <= p) ==> st.0[p] == buf[p]
        },
{
    let t = e.0;
    let i = e.1;
    lemma_entry_inside(t, i, buf.len() as int);
    let v = t.entry(buf, i);
    if v >= end {
        let nv = shifted(v as u64, delta);
        if t.kind == co64() || nv <= u32::MAX {
            law_chunk_entry_write_read(t, buf, i, i, nv);
        }
    }
}

/// The patcher's invariant over a prefix of the entries.
pub open spec fn fold_inv(buf: Seq<u8>, es: Seq<(ChunkTable, int)>, out: Seq<u8>, end: int, delta: i64) -> bool {
    &&& out.len() == buf.len()
    &&& forall|k: int|
        0 <= k < es.len() ==> (#[trigger] es[k]).0.entry(out, es[k].1) == patched_value(
            es[k].0.entry(buf, es[k].1),
            end,
            delta,
        )
    &&& forall|p: int| 0 <= p < buf.len() && outside(es, p) ==> out[p] == buf[p]
}

/// The invariant carries over one more patched entry.
#[verifier::rlimit(60)]
proof fn lemma_fold_step(
    buf: Seq<u8>,
    es: Seq<(ChunkTable, int)>,
    r0: Seq<u8>,
    start: int,
    end: int,
    delta: i64,
)
    requires
        es.len() > 0,
        apart(es),
        forall|k: int|
            0 <= k < es.len() ==> 0 <= (#[trigger] es[k]).1 && es[k].1 < es[k].0.count
                && es[k].0.fits(buf.len() as int),
        fold_inv(buf, es.drop_last(), r0, end, delta),
        patch_step(r0, es.last(), start, end, delta) is Ok,
    ensures
        fold_inv(buf, es, patch_step(r0, es.last(), start, end, delta).unwrap().0, end, delta),
{
    let d = es.drop_last();
    let e = es.last();
    let last = es.len() - 1;
    assert(e == es[last]);
    let t = e.0;
    let i = e.1;
    let q = t.entry_pos(i);
    lemma_entry_inside(t, i, buf.len() as int);
    assert forall|p: int| q <= p < q + t.width() implies r0[p] == buf[p] by {
        assert forall|k: int| 0 <= k < d.len() implies p < (#[trigger] d[k]).0.entry_pos(d[k].1)
            || d[k].0.entry_pos(d[k].1) + d[k].0.width() <= p by {
            assert(d[k] == es[k]);
        }
    }
    lemma_entry_frame(t, i, r0, buf);
    lemma_step_write(r0, e, start, end, delta);
    let st = patch_step(r0, e, start, end, delta).unwrap();
    assert forall|k: int| 0 <= k < es.len() implies (#[trigger] es[k]).0.entry(st.0, es[k].1)
        == patched_value(es[k].0.entry(buf, es[k].1), end, delta) by {
        if k < d.len() {
            assert(d[k] == es[k]);
            lemma_entry_inside(es[k].0, es[k].1, buf.len() as int);
            lemma_entry_frame(es[k].0, es[k].1, st.0, r0);
        }
    }
    assert forall|p: int| 0 <= p < buf.len() && outside(es, p) implies st.0[p] == buf[p] by {
        assert(p < es[last].0.entry_pos(es[last].1) || es[last].0.entry_pos(es[last].1)
            + es[last].0.width() <= p);
        assert forall|k: int| 0 <= k < d.len() implies p < (#[trigger] d[k]).0.entry_pos(d[k].1)
            || d[k].0.entry_pos(d[k].1) + d[k].0.width() <= p by {
            assert(d[k] == es[k]);
        }
    }
}

/// Running the patcher over entries in disjoint bytes: each entry ends up
/// holding its patched value, the buffer keeps its length, and bytes
/// outside every entry are kept.
pub proof fn lemma_fold_values(
    buf: Seq<u8>,
    es: Seq<(ChunkTable, int)>,
    start: int,
    end: int,
    delta: i64,
)
    requires
        apart(es),
        forall|k: int|
            0 <= k < es.len() ==> 0 <= (#[trigger] es[k]).1 && es[k].1 < es[k].0.count
                && es[k].0.fits(buf.len() as int),
    ensures
        patch_fold(buf, es, start, end, delta) matches Ok(r) ==> fold_inv(buf, es, r.0, end, delta),
    decreases es.len(),
{
    reveal(patch_fold);
    if es.len() > 0 {
        let d = es.drop_last();
        assert(apart(d)) by {
            assert forall|a: int, b: int|
                #![trigger d[a], d[b]]
                0 <= a < d.len() && 0 <= b < d.len() && a != b implies d[a].0.entry_pos(d[a].1)
                + d[a].0.width() <= d[b].0.entry_pos(d[b].1) || d[b].0.entry_pos(d[b].1)
                + d[b].0.width() <= d[a].0.entry_pos(d[a].1) by {
                assert(d[a] == es[a]);
                assert(d[b] == es[b]);
            }
        }
        assert forall|k: int| 0 <= k < d.len() implies 0 <= (#[trigger] d[k]).1 && d[k].1
            < d[k].0.count && d[k].0.fits(buf.len() as int) by {
            assert(d[k] == es[k]);
        }
        lemma_fold_values(buf, d, start, end, delta);
        match patch_fold(buf, d, start, end, delta) {
            Err(_) => {},
            Ok(r) => {
                if patch_step(r.0, es.last(), start, end, delta) is Ok {
                    lemma_fold_step(buf, es, r.0, start, end, delta);
                }
            },
        }
    } else {
        assert forall|p: int| 0 <= p < buf.len() && outside(es, p) implies buf[p] == buf[p] by {}
    }
}

/// The entries of each table end before the next table's entries begin.
pub open spec fn tables_apart(ts: Seq<ChunkTable>) -> bool {
    forall|a: int, b: int|
        #![trigger ts[a], ts[b]]
        0 <= a < b < ts.len() ==> ts[a].entry_pos(ts[a].count as int) <= ts[b].entries_offset
}

/// Every entry names one of the tables and an index below its count.
pub proof fn lemma_entries_member(ts: Seq<ChunkTable>)
    ensures
        forall|x: int|
            0 <= x < entries_of(ts).len() ==> exists|a: int|
                0 <= a < ts.len() && (#[trigger] entries_of(ts)[x]).0 == ts[a] && 0
                    <= entries_of(ts)[x].1 < ts[a].count,
    decreases ts.len(),
{
    reveal(entries_of);
    if ts.len() > 0 {
        let d = ts.drop_last();
        lemma_entries_member(d);
        let es = entries_of(ts);
        let ed = entries_of(d);
        assert forall|x: int| 0 <= x < es.len() implies exists|a: int|
            0 <= a < ts.len() && (#[trigger] es[x]).0 == ts[a] && 0 <= es[x].1 < ts[a].count by {
            if x < ed.len() {
                assert(es[x] == ed[x]);
                let a = choose|a: int|
                    0 <= a < d.len() && (#[trigger] ed[x]).0 == d[a] && 0 <= ed[x].1 < d[a].count;
                assert(d[a] == ts[a]);
            } else {
                assert(es[x].0 == ts[ts.len() - 1]);
            }
        }
    }
}

/// Entry `i` of table `k` is one of the entries.
pub proof fn lemma_entries_index(ts: Seq<ChunkTable>, k: int, i: int) -> (x: int)
    requires
        0 <= k < ts.len(),
        0 <= i < ts[k].count,
    ensures
        0 <= x < entries_of(ts).len(),
        entries_of(ts)[x] == (ts[k], i),
    decreases ts.len(),
{
    reveal(entries_of);
    let d = ts.drop_last();
    let ed = entries_of(d);
    if k == ts.len() - 1 {
        ed.len() + i
    } else {
        assert(d[k] == ts[k]);
        let y = lemma_entries_index(d, k, i);
        assert(entries_of(ts)[y] == ed[y]);
        y
    }
}

/// Entries of tables that lie apart occupy disjoint bytes.
pub proof fn lemma_entries_apart(ts: Seq<ChunkTable>)
    requires
        tables_apart(ts),
    ensures
        apart(entries_of(ts)),
    decreases ts.len(),
{
    reveal(entries_of);
    if ts.len() > 0 {
        let d = ts.drop_last();
        let t = ts.last();
        assert(t == ts[ts.len() - 1]);
        assert(tables_apart(d)) by {
            assert forall|a: int, b: int|
                #![trigger d[a], d[b]]
                0 <= a < b < d.len() implies d[a].entry_pos(d[a].count as int)
                <= d[b].entries_offset by {
                assert(d[a] == ts[a]);
                assert(d[b] == ts[b]);
            }
        }
        lemma_entries_apart(d);
        lemma_entries_member(d);
        let es = entries_of(ts);
        let ed = entries_of(d);
        assert forall|a: int, b: int|
            #![trigger es[a], es[b]]
            0 <= a < es.len() && 0 <= b < es.len() && a != b implies es[a].0.entry_pos(es[a].1)
            + es[a].0.width() <= es[b].0.entry_pos(es[b].1) || es[b].0.entry_pos(es[b].1)
            + es[b].0.width() <= es[a].0.entry_pos(es[a].1) by {
            if a < ed.len() && b < ed.len() {
                assert(es[a] == ed[a]);
                assert(es[b] == ed[b]);
            } else if a >= ed.len() && b >= ed.len() {
                assert(es[a] == (t, a - ed.len()));
                assert(es[b] == (t, b - ed.len()));
            } else if a < ed.len() {
                assert(es[a] == ed[a]);
                assert(es[b] == (t, b - ed.len()));
                let x = choose|x: int|
                    0 <= x < d.len() && (#[trigger] ed[a]).0 == d[x] && 0 <= ed[a].1 < d[x].count;
                assert(d[x] == ts[x]);
            } else {
                assert(es[b] == ed[b]);
                assert(es[a] == (t, a - ed.len()));
                let x = choose|x: int|
                    0 <= x < d.len() && (#[trigger] ed[b]).0 == d[x] && 0 <= ed[b].1 < d[x].count;
                assert(d[x] == ts[x]);
            }
        }
    }
}

/// The chunk offset tables of a `moov` lie apart: each sits in its own box,
/// and the boxes a walk gathers do not overlap.
pub proof fn lemma_chunk_tables_apart(buf: Seq<u8>)
    requires
        buf.len() <= usize::MAX,
    ensures
        spec_chunk_tables(buf) matches Ok(ts) ==> tables_apart(ts),
{
    lemma_moov_header_ok(buf);
    match spec_moov_header(buf) {
        Ok(moov) => {
            lemma_descend_ok(buf, moov, tables_path(), Gather::ChunkTables);
            lemma_descend_placed(buf, moov, tables_path(), Gather::ChunkTables);
            match descend(buf, moov, tables_path(), Gather::ChunkTables) {
                Ok(hs) => {
                    let ts = hs.map_values(|t: BoxHeader| table_of(buf, t));
                    assert forall|a: int, b: int|
                        #![trigger ts[a], ts[b]]
                        0 <= a < b < ts.len() implies ts[a].entry_pos(ts[a].count as int)
                        <= ts[b].entries_offset by {
                        assert(gathered_ok(buf, hs[a], Gather::ChunkTables));
                        assert(gathered_ok(buf, hs[b], Gather::ChunkTables));
                        assert(hs[a].end_pos() <= hs[b].offset);
                    }
                },
                Err(_) => {},
            }
        },
        Err(_) => {},
    }
}

/// Patching moves every chunk offset that points at or past the end of the
/// old `moov` by `delta` and leaves every other offset as it was, in place:
/// entry `i` of table `k` of the input reads, in the output, as its patched
/// value. The buffer keeps its length.
pub proof fn law_patch_moves_offsets(moov_buf: Seq<u8>, old_moov: BoxHeader, delta: i64, k: int, i: int)
    requires
        moov_buf.len() <= usize::MAX,
        spec_patch(moov_buf, old_moov, delta) is Ok,
        spec_chunk_tables(moov_buf) is Ok,
        0 <= k < spec_chunk_tables(moov_buf).unwrap().len(),
        0 <= i < spec_chunk_tables(moov_buf).unwrap()[k].count,
    ensures
        ({
            let t = spec_chunk_tables(moov_buf).unwrap()[k];
            let out = spec_patch(moov_buf, old_moov, delta).unwrap().0;
            &&& out.len() == moov_buf.len()
            &&& t.entry(out, i) == patched_value(t.entry(moov_buf, i), old_moov.end_pos(), delta)
        }),
{
    let ts = spec_chunk_tables(moov_buf).unwrap();
    lemma_chunk_tables_ok(moov_buf);
    lemma_entries_valid(ts, moov_buf.len() as int);
    lemma_chunk_tables_apart(moov_buf);
    lemma_entries_apart(ts);
    let es = entries_of(ts);
    lemma_fold_values(moov_buf, es, old_moov.offset as int, old_moov.end_pos(), delta);
    let x = lemma_entries_index(ts, k, i);
    assert(es[x] == (ts[k], i));
}

/// The chunk offset tables of a `moov` come in document order: each one's
/// entries end before the next one's begin, every table's entries lie inside
/// the buffer, each table is a `stco` or a `co64`, and its count fits in 32
/// bits.
pub proof fn law_chunk_tables_in_order(buf: Seq<u8>)
    requires
        buf.len() <= usize::MAX,
    ensures
        spec_chunk_tables(buf) matches Ok(ts) ==> {
            &&& tables_apart(ts)
            &&& forall|i: int|
                0 <= i < ts.len() ==> {
                    &&& (#[trigger] ts[i]).fits(buf.len() as int)
                    &&& ts[i].count <= u32::MAX
                    &&& (ts[i].kind == stco() || ts[i].kind == co64())
                }
        },
{
    lemma_chunk_tables_apart(buf);
    lemma_chunk_tables_ok(buf);
}

} // verus!
