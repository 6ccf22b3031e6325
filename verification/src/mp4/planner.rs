//! Decide what must change before anything is written.
//!
//! Output is a list of segments: byte ranges copied verbatim from the input,
//! or new bytes. The planner also decides how a change in `moov` size is
//! absorbed so that `mdat` bytes are never touched:
//!
//! 1. `moov` is the last box: nothing after it can move. Just write it.
//! 2. A `free`/`skip` box directly follows `moov`: resize it by the delta so
//!    every later box keeps its offset.
//! 3. `moov` shrank by >= 8 bytes: insert a new `free` box after it.
//! 4. Otherwise: shift everything after `moov` and patch every `stco`/`co64`
//!    entry that points past the old `moov` end.
//!
//! Refused: fragmented MP4 (`moof`, `sidx`, `mvex`), multiple `moov`.

use vstd::prelude::*;

use super::be::{push_zeros, read_u32, splice, u32_bytes, u64_bytes, write_u32_at};
use super::box_header::{box_bytes, lemma_box_bytes_shape, with_header, written_header_len, BoxHeader, FourCc};
use super::error::Mp4Error;
use super::pieces::{header_of, lemma_box_bytes_one, one_box};
use super::finder::{
    chunk_tables, co64, free, is_fragmented, lemma_chunk_tables_ok, lemma_chunk_tables_total,
    lemma_moov_header_ok, mdat, moof, moov, sidx, skip, spec_chunk_tables, spec_is_fragmented,
    spec_moov_header, sum_counts, sum_sizes, ChunkTable,
};
use super::rebuild::{
    count_kind, first_of, growth, lemma_first_of, lemma_rebuild_len, replace_cover,
    spec_replace_cover, RebuildStats,
};

verus! {

/// Refuse to hold a `moov` larger than this in memory (sanity limit; real
/// files are KBs to tens of MBs).
pub const MAX_MOOV_BYTES: u64 = 0x4000_0000;

/// A piece of the output file.
#[derive(Debug)]
pub enum Segment {
    /// Copy `len` bytes from `offset` in the input.
    Copy { offset: u64, len: u64 },
    /// Write these bytes.
    Bytes(Vec<u8>),
}

/// A piece of the output file, as a mathematical value.
pub enum SegmentView {
    Copy { offset: u64, len: u64 },
    Bytes(Seq<u8>),
}

impl View for Segment {
    type V = SegmentView;

    open spec fn view(&self) -> SegmentView {
        match self {
            Segment::Copy { offset, len } => SegmentView::Copy { offset: *offset, len: *len },
            Segment::Bytes(b) => SegmentView::Bytes(b@),
        }
    }
}

impl SegmentView {
    /// Number of output bytes this piece produces.
    pub open spec fn len(self) -> int {
        match self {
            SegmentView::Copy { offset, len } => len as int,
            SegmentView::Bytes(b) => b.len() as int,
        }
    }
}

/// How a change of `moov` size is absorbed.
#[derive(Debug, Clone, Copy, PartialEq, Eq, Structural)]
pub enum Strategy {
    /// `moov` size unchanged.
    SameSize,
    /// `moov` is the last box; nothing after it to move.
    MoovLast,
    /// Adjacent `free`/`skip` box resized to absorb the delta.
    ResizeFree,
    /// New `free` box inserted after `moov` to fill the gap.
    InsertFree,
    /// Boxes after `moov` shifted; chunk offsets patched.
    ShiftAndPatch,
}

/// Everything decided about the output before it is written.
#[derive(Debug)]
pub struct Plan {
    pub segments: Vec<Segment>,
    pub strategy: Strategy,
    /// `new moov size - old moov size`.
    pub delta: i64,
    /// Number of `stco`/`co64` entries rewritten.
    pub patched_offsets: usize,
    pub old_moov: BoxHeader,
    pub rebuild: RebuildStats,
    /// Total output length.
    pub output_len: u64,
    /// Size of the serialized `covr` box written.
    pub covr_len: usize,
}

/// A plan as a mathematical value.
pub struct PlanView {
    pub segments: Seq<SegmentView>,
    pub strategy: Strategy,
    pub delta: int,
    pub patched_offsets: nat,
    pub old_moov: BoxHeader,
    pub removed_covr: nat,
    pub created: Seq<&'static str>,
    pub output_len: int,
    pub covr_len: nat,
}

impl View for Plan {
    type V = PlanView;

    open spec fn view(&self) -> PlanView {
        PlanView {
            segments: self.segments@.map_values(|s: Segment| s@),
            strategy: self.strategy,
            delta: self.delta as int,
            patched_offsets: self.patched_offsets as nat,
            old_moov: self.old_moov,
            removed_covr: self.rebuild.removed_covr as nat,
            created: self.rebuild.created@,
            output_len: self.output_len as int,
            covr_len: self.covr_len as nat,
        }
    }
}

/// Whether the top-level layout is one that can be rewritten: exactly one
/// `moov`, no `moof` / `sidx`, at least one `mdat`.
pub open spec fn spec_validate_top(top: Seq<BoxHeader>) -> Result<(), Mp4Error> {
    if count_kind(top, moov()) != 1 {
        Err(Mp4Error::MoovCount { count: count_kind(top, moov()) as usize })
    } else if count_kind(top, moof()) > 0 || count_kind(top, sidx()) > 0 {
        Err(Mp4Error::FragmentedTopLevel)
    } else if count_kind(top, mdat()) == 0 {
        Err(Mp4Error::NoMdat)
    } else {
        Ok(())
    }
}

/// Number of headers of type `kind` in `top`.
fn count(top: &[BoxHeader], kind: FourCc) -> (r: usize)
    ensures
        r == count_kind(top@, kind),
{
    let mut n: usize = 0;
    let mut i: usize = 0;
    while i < top.len()
        invariant
            i <= top@.len(),
            n == count_kind(top@.take(i as int), kind),
            n <= i,
        decreases top@.len() - i,
    {
        assert(top@.take(i as int + 1).drop_last() =~= top@.take(i as int));
        assert(top@.take(i as int + 1).last() == top@[i as int]);
        if top[i].kind.is(&kind) {
            n = n + 1;
        }
        i = i + 1;
    }
    assert(top@.take(i as int) =~= top@);
    n
}

/// Refuse layouts that cannot be rewritten.
pub fn validate_top_level(top: &[BoxHeader]) -> (r: Result<(), Mp4Error>)
    ensures
        r == spec_validate_top(top@),
{
    let moovs = count(top, moov());
    if moovs != 1 {
        return Err(Mp4Error::MoovCount { count: moovs });
    }
    if count(top, moof()) > 0 || count(top, sidx()) > 0 {
        return Err(Mp4Error::FragmentedTopLevel);
    }
    if count(top, mdat()) == 0 {
        return Err(Mp4Error::NoMdat);
    }
    Ok(())
}

/// A valid layout has a first `moov`.
pub proof fn lemma_validated_has_moov(top: Seq<BoxHeader>)
    requires
        spec_validate_top(top) is Ok,
    ensures
        first_of(top, moov()) < top.len(),
        top[first_of(top, moov())].kind == moov(),
    decreases top.len(),
{
    lemma_first_of(top, moov());
    if first_of(top, moov()) == top.len() {
        lemma_no_kind_count(top, moov());
    }
}

/// No header of a type means a count of zero.
proof fn lemma_no_kind_count(top: Seq<BoxHeader>, kind: FourCc)
    requires
        forall|i: int| 0 <= i < top.len() ==> (#[trigger] top[i]).kind != kind,
    ensures
        count_kind(top, kind) == 0,
    decreases top.len(),
{
    if top.len() > 0 {
        assert(top.last() == top[top.len() - 1]);
        assert forall|i: int| 0 <= i < top.drop_last().len() implies (
        #[trigger] top.drop_last()[i]).kind != kind by {
            assert(top.drop_last()[i] == top[i]);
        }
        lemma_no_kind_count(top.drop_last(), kind);
    }
}

/// The `moov` that a valid layout asks to load: its header, unless it is
/// larger than [`MAX_MOOV_BYTES`].
pub open spec fn spec_moov_to_read(top: Seq<BoxHeader>) -> Result<BoxHeader, Mp4Error> {
    match spec_validate_top(top) {
        Err(e) => Err(e),
        Ok(_) => {
            let m = top[first_of(top, moov())];
            if m.size > MAX_MOOV_BYTES {
                Err(Mp4Error::MoovTooLarge { size: m.size })
            } else {
                Ok(m)
            }
        },
    }
}

/// Validate the top-level layout and return the header of the `moov` box
/// whose bytes must be loaded to plan the rewrite.
pub fn moov_to_read(top: &[BoxHeader]) -> (r: Result<BoxHeader, Mp4Error>)
    ensures
        r == spec_moov_to_read(top@),
{
    match validate_top_level(top) {
        Ok(()) => {},
        Err(e) => {
            return Err(e);
        },
    }
    proof {
        lemma_validated_has_moov(top@);
    }
    let idx = find_moov(top);
    let m = top[idx];
    if m.size > MAX_MOOV_BYTES {
        return Err(Mp4Error::MoovTooLarge { size: m.size });
    }
    Ok(m)
}

/// Index of the first `moov` header.
fn find_moov(top: &[BoxHeader]) -> (r: usize)
    requires
        first_of(top@, moov()) < top@.len(),
    ensures
        r == first_of(top@, moov()),
{
    proof {
        lemma_first_of(top@, moov());
    }
    let mut i: usize = 0;
    while !top[i].kind.is(&moov())
        invariant
            i <= first_of(top@, moov()),
            first_of(top@, moov()) < top@.len(),
            forall|j: int| 0 <= j < first_of(top@, moov()) ==> (#[trigger] top@[j]).kind != moov(),
            top@[first_of(top@, moov())].kind == moov(),
        decreases first_of(top@, moov()) - i,
    {
        i = i + 1;
    }
    i
}

/// A `moov` buffer whose header says `size == 0` gets its explicit size.
pub open spec fn spec_normalize(buf: Seq<u8>, size: u64) -> Result<Seq<u8>, Mp4Error> {
    if buf.len() >= 4 && super::be::be32(buf, 0) == 0 {
        if size > u32::MAX {
            Err(Mp4Error::MoovSizeZeroTooLarge { size })
        } else {
            Ok(splice(buf, 0, u32_bytes(size as int)))
        }
    } else {
        Ok(buf)
    }
}

/// A `size == 0` moov (extends to EOF) is rewritten with an explicit size;
/// normalize the header so downstream parsing sees a self-consistent box.
pub fn normalize_size_field(buf: &mut Vec<u8>, size: u64) -> (r: Result<(), Mp4Error>)
    ensures
        match spec_normalize(old(buf)@, size) {
            Ok(b) => r is Ok && final(buf)@ == b,
            Err(e) => r == Err::<(), _>(e) && final(buf)@ == old(buf)@,
        },
{
    if buf.len() >= 4 && read_u32(buf.as_slice(), 0) == 0 {
        if size > u32::MAX as u64 {
            return Err(Mp4Error::MoovSizeZeroTooLarge { size });
        }
        write_u32_at(buf, 0, size as u32);
    }
    Ok(())
}

/// New size of a `free` box of `free.size` bytes absorbing `delta`, if it
/// stays a valid box (at least 8 bytes, 32-bit size).
pub open spec fn spec_resized_free(free: BoxHeader, delta: int) -> Option<u64> {
    let new_size = free.size - delta;
    if 8 <= new_size <= u32::MAX {
        Some(new_size as u64)
    } else {
        None
    }
}

/// New size for a `free` box absorbing `delta`, if it stays a valid box
/// (>= 8 bytes, 32-bit size).
pub fn resized_free(free: &BoxHeader, delta: i64) -> (r: Option<u64>)
    ensures
        r == spec_resized_free(*free, delta as int),
{
    let new_size = free.size as i128 - delta as i128;
    if 8 <= new_size && new_size <= u32::MAX as i128 {
        Some(new_size as u64)
    } else {
        None
    }
}

/// How a `moov` size change of `delta` is absorbed, given the box after
/// `moov`, if any.
pub open spec fn spec_strategy(delta: int, next: Option<BoxHeader>) -> Strategy {
    if delta == 0 {
        Strategy::SameSize
    } else {
        match next {
            None => Strategy::MoovLast,
            Some(f) => if (f.kind == free() || f.kind == skip()) && spec_resized_free(f, delta) is Some {
                Strategy::ResizeFree
            } else if delta <= -8 {
                Strategy::InsertFree
            } else {
                Strategy::ShiftAndPatch
            },
        }
    }
}

/// `v` moved by `delta`, wrapping around 64 bits.
pub open spec fn shifted(v: u64, delta: i64) -> u64 {
    let x = v + delta;
    if x < 0 {
        (x + 0x1_0000_0000_0000_0000) as u64
    } else if x > u64::MAX {
        (x - 0x1_0000_0000_0000_0000) as u64
    } else {
        x as u64
    }
}

/// Every chunk offset table entry, as (table, index) pairs in table order.
#[verifier::opaque]
pub open spec fn entries_of(ts: Seq<ChunkTable>) -> Seq<(ChunkTable, int)>
    decreases ts.len(),
{
    if ts.len() == 0 {
        Seq::empty()
    } else {
        entries_of(ts.drop_last()) + Seq::new(ts.last().count as nat, |i: int| (ts.last(), i))
    }
}

/// One entry handled by the patcher: an entry at or past `end` moves by
/// `delta` (a `stco` entry that no longer fits is an error); an entry in
/// `[start, end)` points into `moov` and is an error; others stay. The flag
/// says whether the entry was rewritten.
pub open spec fn patch_step(buf: Seq<u8>, e: (ChunkTable, int), start: int, end: int, delta: i64) -> Result<
    (Seq<u8>, bool),
    Mp4Error,
> {
    let t = e.0;
    let i = e.1;
    let v = t.entry(buf, i);
    if v >= end {
        let nv = shifted(v as u64, delta);
        if t.kind == co64() {
            Ok((splice(buf, t.entry_pos(i), u64_bytes(nv as int)), true))
        } else if nv > u32::MAX {
            Err(Mp4Error::StcoOverflow { value: nv })
        } else {
            Ok((splice(buf, t.entry_pos(i), u32_bytes(nv as int)), true))
        }
    } else if v >= start {
        Err(Mp4Error::ChunkOffsetInsideMoov { value: v as u64 })
    } else {
        Ok((buf, false))
    }
}

/// The patcher run over the entries `es` in order, each reading the buffer
/// as the previous ones left it; the result counts the entries rewritten.
#[verifier::opaque]
pub open spec fn patch_fold(buf: Seq<u8>, es: Seq<(ChunkTable, int)>, start: int, end: int, delta: i64) -> Result<
    (Seq<u8>, nat),
    Mp4Error,
>
    decreases es.len(),
{
    if es.len() == 0 {
        Ok((buf, 0))
    } else {
        match patch_fold(buf, es.drop_last(), start, end, delta) {
            Err(e) => Err(e),
            Ok(r) => match patch_step(r.0, es.last(), start, end, delta) {
                Err(e) => Err(e),
                Ok(s) => Ok(
                    (
                        s.0,
                        if s.1 {
                            r.1 + 1
                        } else {
                            r.1
                        },
                    ),
                ),
            },
        }
    }
}

/// Every chunk offset of `moov` that pointed at or past the end of the old
/// `moov` box, moved by `delta`, with the number of entries rewritten.
pub open spec fn spec_patch(moov_buf: Seq<u8>, old_moov: BoxHeader, delta: i64) -> Result<
    (Seq<u8>, nat),
    Mp4Error,
> {
    match spec_chunk_tables(moov_buf) {
        Err(e) => Err(e),
        Ok(ts) => patch_fold(
            moov_buf,
            entries_of(ts),
            old_moov.offset as int,
            old_moov.end_pos(),
            delta,
        ),
    }
}

/// A patch step keeps the buffer length and writes only inside the entry.
proof fn lemma_patch_fold_len(buf: Seq<u8>, es: Seq<(ChunkTable, int)>, start: int, end: int, delta: i64)
    requires
        forall|k: int|
            0 <= k < es.len() ==> 0 <= (#[trigger] es[k]).1 && es[k].1 < es[k].0.count
                && es[k].0.fits(buf.len() as int),
    ensures
        patch_fold(buf, es, start, end, delta) matches Ok(r) ==> r.0.len() == buf.len() && r.1
            <= es.len(),
    decreases es.len(),
{
    reveal(patch_fold);
    if es.len() > 0 {
        assert forall|k: int| 0 <= k < es.drop_last().len() implies 0 <= (
        #[trigger] es.drop_last()[k]).1 && es.drop_last()[k].1 < es.drop_last()[k].0.count
            && es.drop_last()[k].0.fits(buf.len() as int) by {
            assert(es.drop_last()[k] == es[k]);
        }
        lemma_patch_fold_len(buf, es.drop_last(), start, end, delta);
        assert(es.last() == es[es.len() - 1]);
    }
}

/// Running the patcher over one more entry.
proof fn lemma_fold_push(
    buf: Seq<u8>,
    es: Seq<(ChunkTable, int)>,
    x: (ChunkTable, int),
    start: int,
    end: int,
    delta: i64,
)
    ensures
        patch_fold(buf, es.push(x), start, end, delta) == match patch_fold(buf, es, start, end, delta) {
            Err(e) => Err(e),
            Ok(r) => match patch_step(r.0, x, start, end, delta) {
                Err(e) => Err(e),
                Ok(s) => Ok(
                    (
                        s.0,
                        if s.1 {
                            r.1 + 1
                        } else {
                            r.1
                        },
                    ),
                ),
            },
        },
{
    reveal(patch_fold);
    assert(es.push(x).drop_last() =~= es);
}

/// Entries of one more table.
proof fn lemma_entries_next(ts: Seq<ChunkTable>, t: int)
    requires
        0 <= t < ts.len(),
    ensures
        entries_of(ts.take(t + 1)) == entries_of(ts.take(t)) + Seq::new(
            ts[t].count as nat,
            |j: int| (ts[t], j),
        ),
        entries_of(Seq::<ChunkTable>::empty()) == Seq::<(ChunkTable, int)>::empty(),
{
    reveal(entries_of);
    assert(ts.take(t + 1).drop_last() =~= ts.take(t));
    assert(ts.take(t + 1).last() == ts[t]);
}

/// Once the patcher fails on a prefix of the entries, it fails the same way
/// on all of them.
proof fn lemma_fold_err_prefix(
    buf: Seq<u8>,
    full: Seq<(ChunkTable, int)>,
    n: int,
    start: int,
    end: int,
    delta: i64,
)
    requires
        0 <= n <= full.len(),
        patch_fold(buf, full.take(n), start, end, delta) is Err,
    ensures
        patch_fold(buf, full, start, end, delta) == patch_fold(buf, full.take(n), start, end, delta),
    decreases full.len(),
{
    reveal(patch_fold);
    if n == full.len() {
        assert(full.take(n) =~= full);
    } else {
        assert(full.drop_last().take(n) =~= full.take(n));
        lemma_fold_err_prefix(buf, full.drop_last(), n, start, end, delta);
    }
}

/// Number of entries of the tables `ts`.
proof fn lemma_entries_len(ts: Seq<ChunkTable>)
    ensures
        entries_of(ts).len() == sum_counts(ts),
    decreases ts.len(),
{
    reveal(entries_of);
    if ts.len() > 0 {
        lemma_entries_len(ts.drop_last());
    }
}

/// The entries of the first `t` tables come first among all entries.
proof fn lemma_entries_prefix(ts: Seq<ChunkTable>, t: int)
    requires
        0 <= t <= ts.len(),
    ensures
        entries_of(ts.take(t)).len() <= entries_of(ts).len(),
        entries_of(ts).take(entries_of(ts.take(t)).len() as int) == entries_of(ts.take(t)),
    decreases ts.len(),
{
    reveal(entries_of);
    if t == ts.len() {
        assert(ts.take(t) =~= ts);
        assert(entries_of(ts).take(entries_of(ts).len() as int) =~= entries_of(ts));
    } else {
        let d = ts.drop_last();
        assert(ts.take(t) =~= d.take(t));
        lemma_entries_prefix(d, t);
        let l = entries_of(d.take(t)).len() as int;
        assert(entries_of(ts).take(l) =~= entries_of(d).take(l));
    }
}

/// `v` moved by `delta` with 64-bit wrap-around.
fn shift(v: u64, delta: i64) -> (r: u64)
    ensures
        r == shifted(v, delta),
{
    v.wrapping_add_signed(delta)
}

/// Prefix sums of table counts do not exceed the whole.
proof fn lemma_sum_counts_take(ts: Seq<ChunkTable>, t: int)
    requires
        0 <= t <= ts.len(),
    ensures
        sum_counts(ts.take(t)) <= sum_counts(ts),
        t < ts.len() ==> sum_counts(ts.take(t + 1)) == sum_counts(ts.take(t)) + ts[t].count,
    decreases ts.len(),
{
    if t < ts.len() {
        assert(ts.take(t + 1).drop_last() =~= ts.take(t));
        assert(ts.take(t + 1).last() == ts[t]);
        lemma_sum_counts_take(ts.drop_last(), if t < ts.len() - 1 {
            t
        } else {
            ts.len() - 1
        });
        if t < ts.len() - 1 {
            assert(ts.drop_last().take(t) =~= ts.take(t));
            lemma_sum_counts_take(ts.drop_last(), t + 1);
            assert(ts.drop_last().take(t + 1) =~= ts.take(t + 1));
        } else {
            assert(ts.drop_last().take(t) =~= ts.take(t));
            assert(ts.drop_last().take(t) =~= ts.drop_last());
            assert(ts.last() == ts[t]);
        }
    } else {
        assert(ts.take(t) =~= ts);
    }
}

/// Handle entry `i` of `table` as [`patch_step`] says; `Ok(true)` when it
/// was rewritten.
fn patch_entry(
    buf: &mut Vec<u8>,
    table: &ChunkTable,
    i: usize,
    start: u64,
    end: u64,
    delta: i64,
) -> (r: Result<bool, Mp4Error>)
    requires
        i < table.count,
        table.fits(old(buf)@.len() as int),
    ensures
        match patch_step(old(buf)@, (*table, i as int), start as int, end as int, delta) {
            Ok(s) => r == Ok::<bool, Mp4Error>(s.1) && final(buf)@ == s.0,
            Err(e) => r == Err::<bool, _>(e),
        },
        final(buf)@.len() == old(buf)@.len(),
{
    let v = table.get(buf.as_slice(), i);
    if v >= end {
        let nv = shift(v, delta);
        match table.set(buf, i, nv) {
            Ok(()) => Ok(true),
            Err(e) => Err(e),
        }
    } else if v >= start {
        Err(Mp4Error::ChunkOffsetInsideMoov { value: v })
    } else {
        Ok(false)
    }
}

/// Shift every chunk offset that pointed at or past the end of the old
/// `moov` by `delta`. Offsets before `moov` are untouched. Returns the
/// number of entries rewritten.
pub fn patch_chunk_offsets(moov_buf: &mut Vec<u8>, old_moov: &BoxHeader, delta: i64) -> (r: Result<
    usize,
    Mp4Error,
>)
    requires
        old_moov.end_pos() <= u64::MAX,
    ensures
        match spec_patch(old(moov_buf)@, *old_moov, delta) {
            Ok(res) => r matches Ok(n) && n == res.1 && final(moov_buf)@ == res.0,
            Err(e) => r == Err::<usize, _>(e),
        },
        final(moov_buf)@.len() == old(moov_buf)@.len(),
{
    let _ = moov_buf.len();
    let tables = match chunk_tables(moov_buf.as_slice()) {
        Ok(t) => t,
        Err(e) => {
            return Err(e);
        },
    };
    let ghost buf0 = moov_buf@;
    proof {
        lemma_chunk_tables_ok(buf0);
        lemma_chunk_tables_total(buf0);
    }
    let old_end = old_moov.end();
    let mut patched: usize = 0;
    let mut t: usize = 0;
    proof {
        reveal(entries_of);
        reveal(patch_fold);
        assert(tables@.take(0) =~= Seq::<ChunkTable>::empty());
    }
    while t < tables.len()
        invariant
            t <= tables@.len(),
            buf0 == old(moov_buf)@,
            spec_chunk_tables(buf0) == Ok::<_, Mp4Error>(tables@),
            forall|k: int|
                0 <= k < tables@.len() ==> (#[trigger] tables@[k]).fits(buf0.len() as int),
            sum_counts(tables@) * 4 <= buf0.len(),
            buf0.len() <= usize::MAX,
            moov_buf@.len() == buf0.len(),
            old_end == old_moov.end_pos(),
            patch_fold(buf0, entries_of(tables@.take(t as int)), old_moov.offset as int, old_end as int, delta)
                == Ok::<_, Mp4Error>((moov_buf@, patched as nat)),
            patched <= sum_counts(tables@.take(t as int)),
        decreases tables@.len() - t,
    {
        let table = tables[t];
        proof {
            lemma_sum_counts_take(tables@, t as int);
            lemma_sum_counts_take(tables@, t as int + 1);
            lemma_entries_prefix(tables@, t as int + 1);
            lemma_entries_next(tables@, t as int);
        }
        let ghost base = entries_of(tables@.take(t as int));
        assert(entries_of(tables@.take(t as int + 1)) == base + Seq::new(
            table.count as nat,
            |j: int| (table, j),
        ));
        let mut i: usize = 0;
        assert(base + Seq::new(0, |j: int| (table, j)) =~= base);
        while i < table.count
            invariant
                t < tables@.len(),
                table == tables@[t as int],
                i <= table.count,
                table.fits(buf0.len() as int),
                buf0.len() <= usize::MAX,
                moov_buf@.len() == buf0.len(),
                old_end == old_moov.end_pos(),
                base == entries_of(tables@.take(t as int)),
                buf0 == old(moov_buf)@,
                spec_chunk_tables(buf0) == Ok::<_, Mp4Error>(tables@),
                entries_of(tables@.take(t as int + 1)) == base + Seq::new(
                    table.count as nat,
                    |j: int| (table, j),
                ),
                entries_of(tables@.take(t as int + 1)).len() <= entries_of(tables@).len(),
                entries_of(tables@).take(entries_of(tables@.take(t as int + 1)).len() as int)
                    == entries_of(tables@.take(t as int + 1)),
                patch_fold(buf0, base + Seq::new(i as nat, |j: int| (table, j)), old_moov.offset as int, old_end as int, delta)
                    == Ok::<_, Mp4Error>((moov_buf@, patched as nat)),
                patched <= sum_counts(tables@.take(t as int)) + i,
                sum_counts(tables@.take(t as int)) + table.count <= sum_counts(tables@),
                sum_counts(tables@) * 4 <= buf0.len(),
            decreases table.count - i,
        {
            let ghost es = base + Seq::new(i as nat, |j: int| (table, j));
            let ghost es1 = base + Seq::new((i + 1) as nat, |j: int| (table, j));
            assert(es1 =~= es.push((table, i as int)));
            proof {
                lemma_fold_push(buf0, es, (table, i as int), old_moov.offset as int, old_end as int, delta);
            }
            proof {
                let full = entries_of(tables@);
                let p = entries_of(tables@.take(t as int + 1));
                assert(p.take(es1.len() as int) =~= es1);
                assert(full.take(es1.len() as int) =~= es1);
            }
            let moved = match patch_entry(moov_buf, &table, i, old_moov.offset, old_end, delta) {
                Ok(m) => m,
                Err(e) => {
                    proof {
                        assert(patch_fold(buf0, es1, old_moov.offset as int, old_end as int, delta)
                            == Err::<(Seq<u8>, nat), _>(e));
                        lemma_fold_err_prefix(
                            buf0,
                            entries_of(tables@),
                            es1.len() as int,
                            old_moov.offset as int,
                            old_end as int,
                            delta,
                        );
                    }
                    return Err(e);
                },
            };
            if moved {
                patched = patched + 1;
            }
            i = i + 1;
        }
        assert(base + Seq::new(i as nat, |j: int| (table, j)) =~= base + Seq::new(
            table.count as nat,
            |j: int| (table, j),
        ));
        t = t + 1;
    }
    proof {
        assert(tables@.take(t as int) =~= tables@);
    }
    Ok(patched)
}

/// Header length of the `free` box that fills a gap of `n` bytes: the
/// 8-byte form while `n` fits in a 32-bit size field, else the 16-byte
/// `largesize` form.
pub open spec fn gap_free_header(n: int) -> u8 {
    if n <= u32::MAX {
        8
    } else {
        16
    }
}

/// The zero-filled `free` box of exactly `n` bytes that fills the gap a
/// shrunk `moov` leaves.
pub open spec fn gap_free(n: int) -> Seq<u8> {
    box_bytes(free(), gap_free_header(n), Seq::new((n - gap_free_header(n)) as nat, |k: int| 0u8))
}

/// The gap-filling `free` box is exactly as long as the gap.
pub proof fn lemma_gap_free_len(n: int)
    ensures
        n >= 8 ==> gap_free(n).len() == n,
{
    let hl = gap_free_header(n);
    lemma_box_bytes_shape(free(), hl, Seq::new((n - hl) as nat, |k: int| 0u8));
}

/// The pieces the output gets from top-level box `i`.
pub open spec fn seg_at(
    top: Seq<BoxHeader>,
    i: int,
    idx: int,
    new_moov: Seq<u8>,
    strategy: Strategy,
    delta: int,
) -> Seq<SegmentView> {
    if i == idx {
        seq![SegmentView::Bytes(new_moov)] + if strategy == Strategy::InsertFree {
            seq![SegmentView::Bytes(gap_free(-delta))]
        } else {
            Seq::empty()
        }
    } else if i == idx + 1 && strategy == Strategy::ResizeFree {
        seq![
            SegmentView::Bytes(
                box_bytes(
                    top[i].kind,
                    8,
                    Seq::new((spec_resized_free(top[i], delta).unwrap() - 8) as nat, |k: int| 0u8),
                ),
            ),
        ]
    } else {
        seq![SegmentView::Copy { offset: top[i].offset, len: top[i].size }]
    }
}

/// The pieces the output gets from the first `n` top-level boxes.
pub open spec fn segs_upto(
    top: Seq<BoxHeader>,
    n: int,
    idx: int,
    new_moov: Seq<u8>,
    strategy: Strategy,
    delta: int,
) -> Seq<SegmentView>
    decreases n,
{
    if n <= 0 {
        Seq::empty()
    } else {
        segs_upto(top, n - 1, idx, new_moov, strategy, delta) + seg_at(top, n - 1, idx, new_moov, strategy, delta)
    }
}

/// Total output length of a list of pieces.
pub open spec fn total_len(segs: Seq<SegmentView>) -> int
    decreases segs.len(),
{
    if segs.len() == 0 {
        0
    } else {
        total_len(segs.drop_last()) + segs.last().len()
    }
}

/// The plan for rewriting a file whose top-level boxes are `top`, whose
/// `moov` bytes are `moov_buf`, with the serialized cover `covr_box`.
#[verifier::opaque]
pub open spec fn spec_plan_moov(top: Seq<BoxHeader>, moov_buf: Seq<u8>, covr_box: Seq<u8>) -> Result<
    PlanView,
    Mp4Error,
> {
    match spec_validate_top(top) {
        Err(e) => Err(e),
        Ok(_) => {
            let idx = first_of(top, moov());
            let old_moov = top[idx];
            if moov_buf.len() != old_moov.size {
                Err(Mp4Error::MoovBufferSize { buffer: moov_buf.len() as usize, header: old_moov.size })
            } else {
                match spec_normalize(moov_buf, old_moov.size) {
                    Err(e) => Err(e),
                    Ok(m1) => match spec_is_fragmented(m1) {
                        Err(e) => Err(e),
                        Ok(frag) => if frag {
                            Err(Mp4Error::FragmentedMvex)
                        } else {
                            match spec_replace_cover(m1, covr_box) {
                                Err(e) => Err(e),
                                Ok(rb) => {
                                    let delta = rb.0.len() - old_moov.size;
                                    let next = if idx + 1 < top.len() {
                                        Some(top[idx + 1])
                                    } else {
                                        None
                                    };
                                    let strategy = spec_strategy(delta, next);
                                    let patched = if strategy == Strategy::ShiftAndPatch {
                                        spec_patch(rb.0, old_moov, delta as i64)
                                    } else {
                                        Ok((rb.0, 0nat))
                                    };
                                    match patched {
                                        Err(e) => Err(e),
                                        Ok(pm) => {
                                            let segs = segs_upto(
                                                top,
                                                top.len() as int,
                                                idx,
                                                pm.0,
                                                strategy,
                                                delta,
                                            );
                                            Ok(
                                                PlanView {
                                                    segments: segs,
                                                    strategy,
                                                    delta,
                                                    patched_offsets: pm.1,
                                                    old_moov,
                                                    removed_covr: rb.1,
                                                    created: rb.2,
                                                    output_len: total_len(segs),
                                                    covr_len: covr_box.len(),
                                                },
                                            )
                                        },
                                    }
                                },
                            }
                        },
                    },
                }
            }
        },
    }
}

/// Total length over a concatenation of pieces.
pub proof fn lemma_total_len_concat(a: Seq<SegmentView>, b: Seq<SegmentView>)
    ensures
        total_len(a + b) == total_len(a) + total_len(b),
    decreases b.len(),
{
    if b.len() == 0 {
        assert(a + b =~= a);
    } else {
        assert((a + b).drop_last() =~= a + b.drop_last());
        lemma_total_len_concat(a, b.drop_last());
    }
}

/// Total length of a single piece.
pub proof fn lemma_total_len_single(x: SegmentView)
    ensures
        total_len(seq![x]) == x.len(),
{
    assert(seq![x].drop_last() =~= Seq::<SegmentView>::empty());
    assert(total_len(Seq::<SegmentView>::empty()) == 0);
}

/// Total lengths are never negative.
pub proof fn lemma_total_len_nonneg(segs: Seq<SegmentView>)
    ensures
        total_len(segs) >= 0,
    decreases segs.len(),
{
    if segs.len() > 0 {
        lemma_total_len_nonneg(segs.drop_last());
    }
}

/// Prefix sums of sizes do not exceed the whole.
pub proof fn lemma_sum_sizes_take(top: Seq<BoxHeader>, n: int)
    requires
        0 <= n <= top.len(),
    ensures
        sum_sizes(top.take(n)) <= sum_sizes(top),
        n < top.len() ==> sum_sizes(top.take(n + 1)) == sum_sizes(top.take(n)) + top[n].size,
    decreases top.len(),
{
    if n < top.len() {
        assert(top.take(n + 1).drop_last() =~= top.take(n));
        assert(top.take(n + 1).last() == top[n]);
        let d = top.drop_last();
        lemma_sum_sizes_take(d, n);
        assert(d.take(n) =~= top.take(n));
        if n < top.len() - 1 {
            lemma_sum_sizes_take(d, n + 1);
            assert(d.take(n + 1) =~= top.take(n + 1));
        } else {
            assert(top.take(n + 1) =~= top);
        }
    } else {
        assert(top.take(n) =~= top);
    }
}

/// What the pieces from the first `n` boxes add to or take from the first
/// `n` boxes' sizes: the new `moov` (and an inserted `free`) in place of the
/// old one, and a resized `free` in place of the old one.
pub open spec fn len_change(
    top: Seq<BoxHeader>,
    n: int,
    idx: int,
    new_moov: Seq<u8>,
    strategy: Strategy,
    delta: int,
) -> int {
    (if n > idx {
        new_moov.len() - top[idx].size + if strategy == Strategy::InsertFree {
            gap_free(-delta).len() as int
        } else {
            0
        }
    } else {
        0
    }) + if n > idx + 1 && strategy == Strategy::ResizeFree {
        spec_resized_free(top[idx + 1], delta).unwrap() - top[idx + 1].size
    } else {
        0
    }
}

/// The output length of the pieces from the first `n` boxes is their sizes
/// plus [`len_change`].
#[verifier::rlimit(60)]
pub proof fn lemma_total_len_upto(
    top: Seq<BoxHeader>,
    n: int,
    idx: int,
    new_moov: Seq<u8>,
    strategy: Strategy,
    delta: int,
)
    requires
        0 <= n <= top.len(),
        0 <= idx < top.len(),
        strategy == Strategy::InsertFree ==> delta <= -8,
        strategy == Strategy::ResizeFree ==> idx + 1 < top.len() && spec_resized_free(
            top[idx + 1],
            delta,
        ) is Some,
    ensures
        total_len(segs_upto(top, n, idx, new_moov, strategy, delta)) == sum_sizes(top.take(n))
            + len_change(top, n, idx, new_moov, strategy, delta),
    decreases n,
{
    if n > 0 {
        lemma_total_len_upto(top, n - 1, idx, new_moov, strategy, delta);
        lemma_sum_sizes_take(top, n - 1);
        let prev = segs_upto(top, n - 1, idx, new_moov, strategy, delta);
        let here = seg_at(top, n - 1, idx, new_moov, strategy, delta);
        lemma_total_len_concat(prev, here);
        if n - 1 == idx {
            let fb = gap_free(-delta);
            let first = seq![SegmentView::Bytes(new_moov)];
            lemma_total_len_single(SegmentView::Bytes(new_moov));
            if strategy == Strategy::InsertFree {
                let second = seq![SegmentView::Bytes(fb)];
                lemma_total_len_single(SegmentView::Bytes(fb));
                lemma_total_len_concat(first, second);
            } else {
                assert(here =~= first);
            }
        } else if n - 1 == idx + 1 && strategy == Strategy::ResizeFree {
            let z = Seq::new((spec_resized_free(top[n - 1], delta).unwrap() - 8) as nat, |k: int| 0u8);
            lemma_box_bytes_shape(top[n - 1].kind, 8, z);
            lemma_total_len_single(here[0]);
            assert(here =~= seq![here[0]]);
        } else {
            lemma_total_len_single(here[0]);
            assert(here =~= seq![here[0]]);
        }
    } else {
        assert(top.take(0) =~= Seq::<BoxHeader>::empty());
    }
}

/// The output of the pieces from the first `n` boxes never exceeds the
/// input's top-level sizes by more than the growth of `moov` plus the header
/// of an inserted `free` box.
pub proof fn lemma_output_bound(
    top: Seq<BoxHeader>,
    n: int,
    idx: int,
    new_moov: Seq<u8>,
    strategy: Strategy,
    delta: int,
    grow: int,
)
    requires
        0 <= n <= top.len(),
        0 <= idx < top.len(),
        strategy == Strategy::InsertFree ==> delta <= -8 && -delta - 8 + 16 <= u64::MAX,
        strategy == Strategy::ResizeFree ==> idx + 1 < top.len() && spec_resized_free(
            top[idx + 1],
            delta,
        ) is Some,
        new_moov.len() - top[idx].size == delta,
        delta <= grow,
        0 <= grow,
    ensures
        total_len(segs_upto(top, n, idx, new_moov, strategy, delta)) <= sum_sizes(top) + grow + 16,
        total_len(segs_upto(top, n, idx, new_moov, strategy, delta)) >= 0,
{
    lemma_total_len_upto(top, n, idx, new_moov, strategy, delta);
    lemma_sum_sizes_take(top, n);
    lemma_sum_sizes_nonneg(top.take(n));
    lemma_gap_free_len(-delta);
    lemma_total_len_nonneg(segs_upto(top, n, idx, new_moov, strategy, delta));
}

/// Sizes are never negative.
pub proof fn lemma_sum_sizes_nonneg(top: Seq<BoxHeader>)
    ensures
        sum_sizes(top) >= 0,
    decreases top.len(),
{
    if top.len() > 0 {
        lemma_sum_sizes_nonneg(top.drop_last());
    }
}

/// Plan with the `moov` box already in memory (`moov_buf` must be exactly
/// the bytes of the `moov` box in `top`). IO-free, so it is shared by every
/// front end.
#[verifier::rlimit(80)]
pub fn plan_moov(top: &[BoxHeader], moov_buf: Vec<u8>, covr_box: &[u8]) -> (r: Result<Plan, Mp4Error>)
    requires
        moov_buf@.len() + covr_box@.len() + growth(3) + 16 <= i64::MAX,
        sum_sizes(top@) + covr_box@.len() + growth(3) + 32 <= u64::MAX,
        forall|i: int| 0 <= i < top@.len() ==> (#[trigger] top@[i]).end_pos() <= u64::MAX,
    ensures
        match spec_plan_moov(top@, moov_buf@, covr_box@) {
            Ok(p) => r matches Ok(plan) && plan@ == p,
            Err(e) => r matches Err(e2) && e2 == e,
        },
{
    proof {
        reveal(spec_plan_moov);
    }
    let ghost input = moov_buf@;
    let mut moov_buf = moov_buf;
    match validate_top_level(top) {
        Ok(()) => {},
        Err(e) => {
            return Err(e);
        },
    }
    proof {
        lemma_validated_has_moov(top@);
    }
    let moov_idx = find_moov(top);
    let old_moov = top[moov_idx];
    if moov_buf.len() as u64 != old_moov.size {
        return Err(Mp4Error::MoovBufferSize { buffer: moov_buf.len(), header: old_moov.size });
    }
    match normalize_size_field(&mut moov_buf, old_moov.size) {
        Ok(()) => {},
        Err(e) => {
            return Err(e);
        },
    }
    let ghost m1 = moov_buf@;
    match is_fragmented(moov_buf.as_slice()) {
        Ok(false) => {},
        Ok(true) => {
            return Err(Mp4Error::FragmentedMvex);
        },
        Err(e) => {
            return Err(e);
        },
    }
    let (mut new_moov, stats) = match replace_cover(moov_buf.as_slice(), covr_box) {
        Ok(x) => x,
        Err(e) => {
            return Err(e);
        },
    };
    let ghost rb = spec_replace_cover(m1, covr_box@).unwrap();
    proof {
        lemma_moov_header_ok(m1);
        let h = spec_moov_header(m1).unwrap();
        lemma_rebuild_len(m1, h, super::finder::covers_path(), covr_box@);
    }
    let delta = new_moov.len() as i64 - old_moov.size as i64;
    let has_next = moov_idx + 1 < top.len();
    let ghost next = if has_next {
        Some(top@[moov_idx + 1])
    } else {
        None
    };
    let mut patched_offsets: usize = 0;
    let strategy = if delta == 0 {
        Strategy::SameSize
    } else if !has_next {
        Strategy::MoovLast
    } else {
        let f = top[moov_idx + 1];
        if (f.kind.is(&free()) || f.kind.is(&skip())) && resized_free(&f, delta).is_some() {
            Strategy::ResizeFree
        } else if delta <= -8 {
            Strategy::InsertFree
        } else {
            match patch_chunk_offsets(&mut new_moov, &old_moov, delta) {
                Ok(n) => {
                    patched_offsets = n;
                },
                Err(e) => {
                    return Err(e);
                },
            }
            Strategy::ShiftAndPatch
        }
    };
    assert(strategy == spec_strategy(delta as int, next));
    let ghost nm = new_moov@;
    let ghost total = |n: int| segs_upto(top@, n, moov_idx as int, nm, strategy, delta as int);
    proof {
        assert(strategy == Strategy::ResizeFree ==> spec_resized_free(top@[moov_idx + 1], delta as int) is Some);
    }
    let mut segments: Vec<Segment> = Vec::new();
    let mut output_len: u64 = 0;
    let mut i: usize = 0;
    assert(segments@.map_values(|s: Segment| s@) =~= Seq::<SegmentView>::empty());
    while i < moov_idx
        invariant
            i <= moov_idx < top@.len(),
            segments@.map_values(|s: Segment| s@) == segs_upto(top@, i as int, moov_idx as int, nm, strategy, delta as int),
            output_len == total_len(segs_upto(top@, i as int, moov_idx as int, nm, strategy, delta as int)),
            sum_sizes(top@) + covr_box@.len() + growth(3) + 32 <= u64::MAX,
            strategy == Strategy::ResizeFree ==> moov_idx + 1 < top@.len() && spec_resized_free(
                top@[moov_idx + 1],
                delta as int,
            ) is Some,
            strategy == Strategy::InsertFree ==> delta <= -8 && -delta - 8 + 16 <= u64::MAX,
            nm.len() - top@[moov_idx as int].size == delta,
            delta <= covr_box@.len() + growth(3),
        decreases moov_idx - i,
    {
        let b = top[i];
        proof {
            lemma_output_bound(top@, i as int + 1, moov_idx as int, nm, strategy, delta as int, covr_box@.len() + growth(3));
            lemma_total_len_concat(
                segs_upto(top@, i as int, moov_idx as int, nm, strategy, delta as int),
                seq![SegmentView::Copy { offset: b.offset, len: b.size }],
            );
            lemma_total_len_single(SegmentView::Copy { offset: b.offset, len: b.size });
            assert(segs_upto(top@, i as int + 1, moov_idx as int, nm, strategy, delta as int)
                == segs_upto(top@, i as int, moov_idx as int, nm, strategy, delta as int) + seq![
                SegmentView::Copy { offset: b.offset, len: b.size },
            ]);
        }
        let ghost before = segments@;
        segments.push(Segment::Copy { offset: b.offset, len: b.size });
        assert(segments@.map_values(|s: Segment| s@) =~= before.map_values(|s: Segment| s@).push(
            SegmentView::Copy { offset: b.offset, len: b.size },
        ));
        output_len = output_len + b.size;
        i = i + 1;
    }
    let ghost after_copy = segments@;
    let new_len = new_moov.len() as u64;
    proof {
        lemma_output_bound(top@, moov_idx as int + 1, moov_idx as int, nm, strategy, delta as int, covr_box@.len() + growth(3));
        lemma_output_bound(top@, moov_idx as int, moov_idx as int, nm, strategy, delta as int, covr_box@.len() + growth(3));
        lemma_gap_free_len(-delta);
        let fb = gap_free(-delta);
        let here = seg_at(top@, moov_idx as int, moov_idx as int, nm, strategy, delta as int);
        lemma_total_len_concat(
            segs_upto(top@, moov_idx as int, moov_idx as int, nm, strategy, delta as int),
            here,
        );
        lemma_total_len_concat(seq![SegmentView::Bytes(nm)], seq![SegmentView::Bytes(fb)]);
        lemma_total_len_single(SegmentView::Bytes(nm));
        lemma_total_len_single(SegmentView::Bytes(fb));
        assert(segs_upto(top@, moov_idx as int + 1, moov_idx as int, nm, strategy, delta as int)
            == segs_upto(top@, moov_idx as int, moov_idx as int, nm, strategy, delta as int) + here);
    }
    segments.push(Segment::Bytes(new_moov));
    output_len = output_len + new_len;
    let ghost with_moov = segments@.map_values(|s: Segment| s@);
    assert(with_moov =~= segs_upto(top@, moov_idx as int, moov_idx as int, nm, strategy, delta as int)
        + seq![SegmentView::Bytes(nm)]);
    proof {
        lemma_total_len_concat(
            segs_upto(top@, moov_idx as int, moov_idx as int, nm, strategy, delta as int),
            seq![SegmentView::Bytes(nm)],
        );
    }
    if strategy == Strategy::InsertFree {
        let gap: u64 = (-delta) as u64;
        let hl: u8 = if gap <= u32::MAX as u64 {
            8
        } else {
            16
        };
        let mut zeros: Vec<u8> = Vec::new();
        push_zeros(&mut zeros, (gap - hl as u64) as usize);
        let fbox = with_header(free(), hl, &zeros);
        let flen = fbox.len() as u64;
        segments.push(Segment::Bytes(fbox));
        proof {
            let fb = gap_free(-delta);
            lemma_total_len_concat(with_moov, seq![SegmentView::Bytes(fb)]);
            assert(segments@.map_values(|s: Segment| s@) =~= with_moov + seq![SegmentView::Bytes(fb)]);
        }
        output_len = output_len + flen;
    }
    assert(segments@.map_values(|s: Segment| s@) =~= segs_upto(
        top@,
        moov_idx as int + 1,
        moov_idx as int,
        nm,
        strategy,
        delta as int,
    ));
    let mut i: usize = moov_idx + 1;
    while i < top.len()
        invariant
            moov_idx < i <= top@.len(),
            segments@.map_values(|s: Segment| s@) == segs_upto(top@, i as int, moov_idx as int, nm, strategy, delta as int),
            output_len == total_len(segs_upto(top@, i as int, moov_idx as int, nm, strategy, delta as int)),
            sum_sizes(top@) + covr_box@.len() + growth(3) + 32 <= u64::MAX,
            strategy == Strategy::ResizeFree ==> moov_idx + 1 < top@.len() && spec_resized_free(
                top@[moov_idx + 1],
                delta as int,
            ) is Some,
            strategy == Strategy::InsertFree ==> delta <= -8 && -delta - 8 + 16 <= u64::MAX,
            nm.len() - top@[moov_idx as int].size == delta,
            delta <= covr_box@.len() + growth(3),
        decreases top@.len() - i,
    {
        let b = top[i];
        proof {
            lemma_output_bound(top@, i as int + 1, moov_idx as int, nm, strategy, delta as int, covr_box@.len() + growth(3));
        }
        let ghost before = segments@;
        let seg = if i == moov_idx + 1 && strategy == Strategy::ResizeFree {
            let new_size = match resized_free(&b, delta) {
                Some(n) => n,
                None => 8,
            };
            let mut zeros: Vec<u8> = Vec::new();
            push_zeros(&mut zeros, (new_size - 8) as usize);
            Segment::Bytes(with_header(b.kind, 8, &zeros))
        } else {
            Segment::Copy { offset: b.offset, len: b.size }
        };
        let ghost here = seg_at(top@, i as int, moov_idx as int, nm, strategy, delta as int);
        assert(here =~= seq![seg@]);
        let seg_len = match &seg {
            Segment::Copy { offset, len } => *len,
            Segment::Bytes(v) => v.len() as u64,
        };
        segments.push(seg);
        assert(segments@.map_values(|s: Segment| s@) =~= before.map_values(|s: Segment| s@) + here);
        proof {
            lemma_total_len_concat(
                segs_upto(top@, i as int, moov_idx as int, nm, strategy, delta as int),
                here,
            );
            lemma_total_len_single(seg@);
            assert(segs_upto(top@, i as int + 1, moov_idx as int, nm, strategy, delta as int)
                == segs_upto(top@, i as int, moov_idx as int, nm, strategy, delta as int) + here);
        }
        output_len = output_len + seg_len;
        i = i + 1;
    }
    proof {
        reveal(spec_plan_moov);
        assert(spec_validate_top(top@) == Ok::<(), Mp4Error>(()));
        assert(first_of(top@, moov()) == moov_idx);
        assert(spec_normalize(input, old_moov.size) == Ok::<_, Mp4Error>(m1));
        assert(spec_is_fragmented(m1) == Ok::<bool, Mp4Error>(false));
        assert(spec_replace_cover(m1, covr_box@) == Ok::<_, Mp4Error>(rb));
        assert(delta as int == rb.0.len() - old_moov.size);
        assert(strategy == spec_strategy(rb.0.len() - old_moov.size, next));
        if strategy == Strategy::ShiftAndPatch {
            assert(spec_patch(rb.0, old_moov, delta) == Ok::<_, Mp4Error>((nm, patched_offsets as nat)));
        } else {
            assert(nm == rb.0);
            assert(patched_offsets == 0);
        }
    }
    let plan = Plan {
        segments,
        strategy,
        delta,
        patched_offsets,
        old_moov,
        rebuild: stats,
        output_len,
        covr_len: covr_box.len(),
    };
    Ok(plan)
}

/// Number of pieces the first `n` boxes produce: one each, and one more for
/// an inserted `free` once `moov` is passed.
pub open spec fn piece_count(n: int, idx: int, strategy: Strategy) -> int {
    n + if strategy == Strategy::InsertFree && n > idx {
        1int
    } else {
        0int
    }
}

/// The pieces of the first `n` boxes are the first pieces of the first `m`.
pub proof fn lemma_segs_prefix(
    top: Seq<BoxHeader>,
    n: int,
    m: int,
    idx: int,
    new_moov: Seq<u8>,
    strategy: Strategy,
    delta: int,
)
    requires
        0 <= n <= m,
        0 <= idx,
    ensures
        segs_upto(top, m, idx, new_moov, strategy, delta).len() == piece_count(m, idx, strategy),
        segs_upto(top, m, idx, new_moov, strategy, delta).take(piece_count(n, idx, strategy))
            == segs_upto(top, n, idx, new_moov, strategy, delta),
    decreases m,
{
    if m > 0 {
        let n1 = if n < m {
            n
        } else {
            m - 1
        };
        lemma_segs_prefix(top, n1, m - 1, idx, new_moov, strategy, delta);
        let prev = segs_upto(top, m - 1, idx, new_moov, strategy, delta);
        let here = seg_at(top, m - 1, idx, new_moov, strategy, delta);
        assert(here.len() == if m - 1 == idx && strategy == Strategy::InsertFree {
            2int
        } else {
            1int
        });
        assert(segs_upto(top, m, idx, new_moov, strategy, delta) == prev + here);
        if n < m {
            assert((prev + here).take(piece_count(n, idx, strategy)) =~= prev.take(
                piece_count(n, idx, strategy),
            ));
        } else {
            let all = segs_upto(top, m, idx, new_moov, strategy, delta);
            assert(all.take(piece_count(n, idx, strategy)) =~= all);
        }
    } else {
        assert(segs_upto(top, m, idx, new_moov, strategy, delta).take(0) =~= Seq::<
            SegmentView,
        >::empty());
    }
}

/// The zero-filled box of type `kind` and `n` bytes whose header has form
/// `hl`, as written in place of a gap, is one whole box of that type and
/// length, all zeros past its header.
proof fn lemma_filler_box(kind: FourCc, hl: u8, n: int)
    requires
        hl == 8 || hl == 16,
        hl <= n,
        n + 16 <= u64::MAX,
        hl == 8 ==> n <= u32::MAX,
    ensures
        ({
            let b = box_bytes(kind, hl, Seq::new((n - hl) as nat, |k: int| 0u8));
            &&& b.len() == n
            &&& one_box(b)
            &&& header_of(b, 0).kind == kind
            &&& header_of(b, 0).header_len == hl
            &&& forall|j: int| hl <= j < n ==> b[j] == 0u8
        }),
{
    let z = Seq::new((n - hl) as nat, |k: int| 0u8);
    let b = box_bytes(kind, hl, z);
    lemma_box_bytes_shape(kind, hl, z);
    lemma_box_bytes_one(kind, hl, z, 0);
    assert forall|j: int| hl <= j < n implies b[j] == 0u8 by {
        assert(b.subrange(hl as int, n)[j - hl] == b[j]);
    }
}

/// What a plan writes in a gap after `moov`: a resized `free` or `skip`
/// box keeps its type, takes the size that makes every later box keep its
/// offset, and holds zeros; an inserted box is a `free` box exactly as long
/// as `moov` shrank, holding zeros. Either one is a whole box whose size
/// field states its length.
pub proof fn law_plan_gap_box(top: Seq<BoxHeader>, moov_buf: Seq<u8>, covr_box: Seq<u8>)
    requires
        spec_plan_moov(top, moov_buf, covr_box) is Ok,
        moov_buf.len() + covr_box.len() + growth(3) <= u64::MAX,
    ensures
        ({
            let p = spec_plan_moov(top, moov_buf, covr_box).unwrap();
            let idx = first_of(top, moov());
            &&& p.strategy == Strategy::ResizeFree ==> (p.segments[idx + 1] matches SegmentView::Bytes(b)
                && b.len() == top[idx + 1].size - p.delta && one_box(b) && header_of(b, 0).kind == top[idx
                + 1].kind && (forall|j: int| header_of(b, 0).header_len <= j < b.len() ==> b[j] == 0u8))
            &&& p.strategy == Strategy::InsertFree ==> (p.segments[idx + 1] matches SegmentView::Bytes(b)
                && b.len() == -p.delta && one_box(b) && header_of(b, 0).kind == free() && (forall|j: int|
                header_of(b, 0).header_len <= j < b.len() ==> b[j] == 0u8))
        }),
{
    reveal(spec_plan_moov);
    lemma_plan_facts(top, moov_buf, covr_box);
    let p = spec_plan_moov(top, moov_buf, covr_box).unwrap();
    let idx = first_of(top, moov());
    let nm = choose|nm: Seq<u8>| plan_built_from(top, p, nm);
    let n = top.len() as int;
    if p.strategy == Strategy::ResizeFree {
        lemma_segs_prefix(top, idx + 2, n, idx, nm, p.strategy, p.delta);
        lemma_segs_prefix(top, idx + 1, idx + 2, idx, nm, p.strategy, p.delta);
        let upto = segs_upto(top, idx + 2, idx, nm, p.strategy, p.delta);
        assert(upto == segs_upto(top, idx + 1, idx, nm, p.strategy, p.delta) + seg_at(
            top,
            idx + 1,
            idx,
            nm,
            p.strategy,
            p.delta,
        ));
        assert(p.segments.take(idx + 2)[idx + 1] == p.segments[idx + 1]);
        let sz = spec_resized_free(top[idx + 1], p.delta).unwrap();
        lemma_filler_box(top[idx + 1].kind, 8, sz as int);
    }
    if p.strategy == Strategy::InsertFree {
        lemma_segs_prefix(top, idx + 1, n, idx, nm, p.strategy, p.delta);
        lemma_segs_prefix(top, idx, idx + 1, idx, nm, p.strategy, p.delta);
        let upto = segs_upto(top, idx + 1, idx, nm, p.strategy, p.delta);
        assert(upto == segs_upto(top, idx, idx, nm, p.strategy, p.delta) + seg_at(
            top,
            idx,
            idx,
            nm,
            p.strategy,
            p.delta,
        ));
        assert(p.segments.take(idx + 2)[idx + 1] == p.segments[idx + 1]);
        assert(-p.delta <= top[idx].size);
        lemma_filler_box(free(), gap_free_header(-p.delta), -p.delta);
    }
}

/// How a plan absorbs the change `delta` in the size of `moov`, in the
/// order the planner tries them: a `moov` of unchanged size is written in
/// place; a `moov` that is the last box is simply written; a `free` or
/// `skip` box right after `moov` that can take the change and stay a valid
/// 32-bit box is resized; a `moov` that shrank by at least 8 bytes is
/// followed by a new `free` box; only otherwise is everything after `moov`
/// shifted and the chunk offsets patched.
pub proof fn law_plan_strategy(top: Seq<BoxHeader>, moov_buf: Seq<u8>, covr_box: Seq<u8>)
    requires
        spec_plan_moov(top, moov_buf, covr_box) is Ok,
        moov_buf.len() + covr_box.len() + growth(3) <= u64::MAX,
    ensures
        ({
            let p = spec_plan_moov(top, moov_buf, covr_box).unwrap();
            let idx = first_of(top, moov());
            let last = idx + 1 == top.len();
            let free_next = !last && (top[idx + 1].kind == free() || top[idx + 1].kind == skip()) && 8
                <= top[idx + 1].size - p.delta <= u32::MAX;
            &&& (p.strategy == Strategy::SameSize) == (p.delta == 0)
            &&& (p.strategy == Strategy::MoovLast) == (p.delta != 0 && last)
            &&& (p.strategy == Strategy::ResizeFree) == (p.delta != 0 && free_next)
            &&& (p.strategy == Strategy::InsertFree) == (p.delta != 0 && !last && !free_next && p.delta <= -8)
            &&& (p.strategy == Strategy::ShiftAndPatch) == (p.delta != 0 && !last && !free_next && p.delta
                > -8)
        }),
{
    reveal(spec_plan_moov);
    lemma_plan_facts(top, moov_buf, covr_box);
}

/// A plan resizes only a `free` or `skip` box: when it absorbs the change
/// in a box after `moov`, that box is a `free` or a `skip`, and every other
/// top-level box, each `mdat` among them, is copied from its own input
/// range.
pub proof fn law_plan_resizes_only_free(top: Seq<BoxHeader>, moov_buf: Seq<u8>, covr_box: Seq<u8>, i: int)
    requires
        spec_plan_moov(top, moov_buf, covr_box) is Ok,
        moov_buf.len() + covr_box.len() + growth(3) <= u64::MAX,
        0 <= i < top.len(),
    ensures
        ({
            let p = spec_plan_moov(top, moov_buf, covr_box).unwrap();
            let idx = first_of(top, moov());
            &&& p.strategy == Strategy::ResizeFree ==> idx + 1 < top.len() && (top[idx + 1].kind == free()
                || top[idx + 1].kind == skip())
            &&& (i != idx && top[i].kind != free() && top[i].kind != skip()) ==> p.segments[piece_count(
                i,
                idx,
                p.strategy,
            )] == SegmentView::Copy { offset: top[i].offset, len: top[i].size }
        }),
{
    reveal(spec_plan_moov);
    lemma_plan_facts(top, moov_buf, covr_box);
    let p = spec_plan_moov(top, moov_buf, covr_box).unwrap();
    let idx = first_of(top, moov());
    if i != idx && top[i].kind != free() && top[i].kind != skip() {
        law_plan_layout(top, moov_buf, covr_box, i);
    }
}

/// Where the planned output puts the input's boxes. Every top-level box
/// other than `moov` (and a `free` box resized to absorb the change) is
/// copied verbatim from its input offset; it starts in the output where the
/// boxes before it end in the input, moved by `delta` only when `moov` is the
/// last box or the plan shifts and patches. The output is as long as the
/// input's boxes together, plus `delta` in those two cases.
#[verifier::rlimit(100)]
pub proof fn law_plan_layout(top: Seq<BoxHeader>, moov_buf: Seq<u8>, covr_box: Seq<u8>, i: int)
    requires
        spec_plan_moov(top, moov_buf, covr_box) is Ok,
        moov_buf.len() + covr_box.len() + growth(3) <= u64::MAX,
        0 <= i < top.len(),
        ({
            let p = spec_plan_moov(top, moov_buf, covr_box).unwrap();
            let idx = first_of(top, moov());
            &&& i != idx
            &&& !(i == idx + 1 && p.strategy == Strategy::ResizeFree)
        }),
    ensures
        ({
            let p = spec_plan_moov(top, moov_buf, covr_box).unwrap();
            let idx = first_of(top, moov());
            let k = piece_count(i, idx, p.strategy);
            let moved = p.strategy == Strategy::MoovLast || p.strategy == Strategy::ShiftAndPatch;
            &&& p.segments[k] == SegmentView::Copy { offset: top[i].offset, len: top[i].size }
            &&& total_len(p.segments.take(k)) == sum_sizes(top.take(i)) + if i > idx && moved {
                p.delta
            } else {
                0int
            }
            &&& p.output_len == sum_sizes(top) + if moved {
                p.delta
            } else {
                0int
            }
        }),
{
    let p = spec_plan_moov(top, moov_buf, covr_box).unwrap();
    let idx = first_of(top, moov());
    lemma_plan_facts(top, moov_buf, covr_box);
    let nm = choose|nm: Seq<u8>| plan_built_from(top, p, nm);
    let n = top.len() as int;
    lemma_segs_prefix(top, i, n, idx, nm, p.strategy, p.delta);
    lemma_segs_prefix(top, i + 1, n, idx, nm, p.strategy, p.delta);
    lemma_segs_prefix(top, i, i + 1, idx, nm, p.strategy, p.delta);
    let k = piece_count(i, idx, p.strategy);
    let upto1 = segs_upto(top, i + 1, idx, nm, p.strategy, p.delta);
    assert(upto1 == segs_upto(top, i, idx, nm, p.strategy, p.delta) + seg_at(top, i, idx, nm, p.strategy, p.delta));
    assert(upto1[k] == SegmentView::Copy { offset: top[i].offset, len: top[i].size });
    assert(p.segments.take(piece_count(i + 1, idx, p.strategy))[k] == p.segments[k]);
    assert(p.segments.take(k) == segs_upto(top, i, idx, nm, p.strategy, p.delta));
    lemma_gap_free_len(-p.delta);
    lemma_total_len_upto(top, i, idx, nm, p.strategy, p.delta);
    lemma_total_len_upto(top, n, idx, nm, p.strategy, p.delta);
    assert(top.take(n) =~= top);
}

/// How a plan's pieces come from the top-level boxes and a new `moov`.
pub open spec fn plan_built_from(top: Seq<BoxHeader>, p: PlanView, nm: Seq<u8>) -> bool {
    let idx = first_of(top, moov());
    &&& p.segments == segs_upto(top, top.len() as int, idx, nm, p.strategy, p.delta)
    &&& p.output_len == total_len(p.segments)
    &&& nm.len() - top[idx].size == p.delta
    &&& p.old_moov == top[idx]
    &&& p.strategy == Strategy::InsertFree ==> p.delta <= -8
    &&& p.strategy == Strategy::ResizeFree ==> idx + 1 < top.len() && spec_resized_free(
        top[idx + 1],
        p.delta,
    ) is Some
    &&& p.strategy == Strategy::SameSize <==> p.delta == 0
    &&& p.strategy == Strategy::MoovLast <==> p.delta != 0 && idx + 1 == top.len()
}

/// The piece a successful plan writes in place of `moov` is the input's
/// `moov` (its size field made explicit) with the cover replaced, and, when
/// the plan shifts and patches, its chunk offsets past the old `moov` then
/// moved by `delta`. `delta` is the growth of `moov`, and the plan reports
/// what the cover replacement removed and created.
pub proof fn law_plan_moov_piece(top: Seq<BoxHeader>, moov_buf: Seq<u8>, covr_box: Seq<u8>)
    requires
        spec_plan_moov(top, moov_buf, covr_box) is Ok,
        moov_buf.len() + covr_box.len() + growth(3) <= u64::MAX,
    ensures
        ({
            let p = spec_plan_moov(top, moov_buf, covr_box).unwrap();
            let idx = first_of(top, moov());
            let m1 = spec_normalize(moov_buf, top[idx].size).unwrap();
            let rb = spec_replace_cover(m1, covr_box).unwrap();
            let nm = if p.strategy == Strategy::ShiftAndPatch {
                spec_patch(rb.0, top[idx], p.delta as i64).unwrap().0
            } else {
                rb.0
            };
            &&& spec_normalize(moov_buf, top[idx].size) is Ok
            &&& spec_replace_cover(m1, covr_box) is Ok
            &&& p.strategy == Strategy::ShiftAndPatch ==> spec_patch(rb.0, top[idx], p.delta as i64) is Ok
            &&& p.segments[idx] == SegmentView::Bytes(nm)
            &&& p.delta == rb.0.len() - top[idx].size
            &&& p.old_moov == top[idx]
            &&& p.removed_covr == rb.1
            &&& p.created == rb.2
        }),
{
    reveal(spec_plan_moov);
    lemma_plan_facts(top, moov_buf, covr_box);
    let p = spec_plan_moov(top, moov_buf, covr_box).unwrap();
    let idx = first_of(top, moov());
    let m1 = spec_normalize(moov_buf, top[idx].size).unwrap();
    let rb = spec_replace_cover(m1, covr_box).unwrap();
    let nm = if p.strategy == Strategy::ShiftAndPatch {
        spec_patch(rb.0, top[idx], p.delta as i64).unwrap().0
    } else {
        rb.0
    };
    let n = top.len() as int;
    lemma_segs_prefix(top, idx + 1, n, idx, nm, p.strategy, p.delta);
    lemma_segs_prefix(top, idx, idx + 1, idx, nm, p.strategy, p.delta);
    assert(p.segments.take(idx + 1)[idx] == p.segments[idx]);
}

/// What a successful plan is made of.
pub proof fn lemma_plan_facts(top: Seq<BoxHeader>, moov_buf: Seq<u8>, covr_box: Seq<u8>)
    requires
        spec_plan_moov(top, moov_buf, covr_box) is Ok,
        moov_buf.len() + covr_box.len() + growth(3) <= u64::MAX,
    ensures
        spec_validate_top(top) is Ok,
        0 <= first_of(top, moov()) < top.len(),
        top[first_of(top, moov())].kind == moov(),
        exists|nm: Seq<u8>| plan_built_from(top, spec_plan_moov(top, moov_buf, covr_box).unwrap(), nm),
{
    reveal(spec_plan_moov);
    let p = spec_plan_moov(top, moov_buf, covr_box).unwrap();
    assert(spec_validate_top(top) is Ok);
    lemma_validated_has_moov(top);
    lemma_first_of(top, moov());
    let idx = first_of(top, moov());
    let m1 = spec_normalize(moov_buf, top[idx].size).unwrap();
    let rb = spec_replace_cover(m1, covr_box).unwrap();
    let pm = if p.strategy == Strategy::ShiftAndPatch {
        spec_patch(rb.0, top[idx], p.delta as i64).unwrap()
    } else {
        (rb.0, 0nat)
    };
    lemma_moov_header_ok(m1);
    lemma_rebuild_len(m1, spec_moov_header(m1).unwrap(), super::finder::covers_path(), covr_box);
    if p.strategy == Strategy::ShiftAndPatch {
        lemma_patch_len(rb.0, top[idx], p.delta as i64);
    }
    assert(plan_built_from(top, p, pm.0));
}

/// The patcher keeps the buffer's length.
pub proof fn lemma_patch_len(moov_buf: Seq<u8>, old_moov: BoxHeader, delta: i64)
    requires
        moov_buf.len() <= u64::MAX,
    ensures
        spec_patch(moov_buf, old_moov, delta) matches Ok(r) ==> r.0.len() == moov_buf.len(),
{
    lemma_chunk_tables_ok(moov_buf);
    match spec_chunk_tables(moov_buf) {
        Ok(ts) => {
            lemma_entries_valid(ts, moov_buf.len() as int);
            lemma_patch_fold_len(
                moov_buf,
                entries_of(ts),
                old_moov.offset as int,
                old_moov.end_pos(),
                delta,
            );
        },
        Err(_) => {},
    }
}

/// Every entry of the tables names an index below its table's count, and its
/// table fits the buffer when they all do.
pub proof fn lemma_entries_valid(ts: Seq<ChunkTable>, len: int)
    requires
        forall|k: int| 0 <= k < ts.len() ==> (#[trigger] ts[k]).fits(len),
    ensures
        forall|k: int|
            0 <= k < entries_of(ts).len() ==> 0 <= (#[trigger] entries_of(ts)[k]).1
                && entries_of(ts)[k].1 < entries_of(ts)[k].0.count && entries_of(ts)[k].0.fits(len),
    decreases ts.len(),
{
    reveal(entries_of);
    if ts.len() > 0 {
        let d = ts.drop_last();
        assert forall|k: int| 0 <= k < d.len() implies (#[trigger] d[k]).fits(len) by {
            assert(d[k] == ts[k]);
        }
        lemma_entries_valid(d, len);
        assert(ts.last() == ts[ts.len() - 1]);
        let es = entries_of(ts);
        let ed = entries_of(d);
        assert forall|k: int| 0 <= k < es.len() implies 0 <= (#[trigger] es[k]).1 && es[k].1
            < es[k].0.count && es[k].0.fits(len) by {
            if k < ed.len() {
                assert(es[k] == ed[k]);
            }
        }
    }
}

} // verus!
