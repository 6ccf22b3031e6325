//! Post-write verification, independent of the planner's bookkeeping. The
//! front ends read the files and hash the `mdat` payloads; this module
//! decides: the output's length and its `mdat` boxes against the input's,
//! each payload's hashes, the comparison of the input and output `moov`
//! boxes, and the FNV-1a hash that the payload comparison folds chunks into.

use vstd::prelude::*;

use super::box_header::BoxHeader;
use super::error::Mp4Error;
use super::finder::{
    chunk_tables, find_covr, lemma_chunk_tables_ok, lemma_chunk_tables_total, spec_chunk_tables,
    lemma_only_kind_ok, mdat, only_kind, spec_find_covr, sum_counts, ChunkTable,
};
use super::planner::{shifted, Plan, Strategy};

verus! {

/// What was checked, for reporting.
#[derive(Debug, Clone, Copy)]
pub struct Report {
    pub mdat_count: usize,
    pub mdat_bytes: u64,
    pub chunk_offsets_checked: usize,
}

/// The `mdat` boxes of a top-level list, in order.
pub fn mdat_boxes(top: &[BoxHeader]) -> (r: Vec<BoxHeader>)
    ensures
        r@ == only_kind(top@, mdat()),
{
    let mut out: Vec<BoxHeader> = Vec::new();
    let mut i: usize = top.len();
    let ghost full = top@;
    while i > 0
        invariant
            i <= full.len(),
            full == top@,
            out@ == only_kind(full.skip(i as int), mdat()),
        decreases i,
    {
        i = i - 1;
        proof {
            assert(full.skip(i as int).drop_first() =~= full.skip(i + 1));
            assert(full.skip(i as int)[0] == full[i as int]);
        }
        if top[i].kind.is(&mdat()) {
            out.insert(0, top[i]);
            proof {
                assert(out@ =~= seq![full[i as int]] + only_kind(full.skip(i + 1), mdat()));
            }
        }
    }
    proof {
        assert(full.skip(0) =~= full);
    }
    out
}

/// Where the payload of one `mdat` sits in the input and in the output, and
/// how long it is.
#[derive(Debug, Clone, Copy)]
pub struct MdatPair {
    /// Offset of the input box.
    pub input_offset: u64,
    pub input_payload: u64,
    pub output_payload: u64,
    pub len: u64,
}

/// `mdat` boxes `a` and `b` differ in size or header form.
pub open spec fn mdat_changed(a: BoxHeader, b: BoxHeader) -> bool {
    !(a.size == b.size && a.header_len == b.header_len)
}

/// The pairing of input `mdat` `a` with output `mdat` `b`.
pub open spec fn spec_mdat_pair(a: BoxHeader, b: BoxHeader) -> Result<MdatPair, Mp4Error> {
    if mdat_changed(a, b) {
        Err(Mp4Error::MdatSizeChanged { before: a.size, after: b.size })
    } else {
        Ok(
            MdatPair {
                input_offset: a.offset,
                input_payload: a.payload() as u64,
                output_payload: b.payload() as u64,
                len: (a.size - a.header_len) as u64,
            },
        )
    }
}

/// Pair an input `mdat` with the output `mdat` in the same place of the
/// list: both must have the same size and header form.
pub fn mdat_pair(a: &BoxHeader, b: &BoxHeader) -> (r: Result<MdatPair, Mp4Error>)
    requires
        a.wf(),
        b.wf(),
        a.end_pos() <= u64::MAX,
        b.end_pos() <= u64::MAX,
    ensures
        r == spec_mdat_pair(*a, *b),
{
    if a.size != b.size || a.header_len != b.header_len {
        return Err(Mp4Error::MdatSizeChanged { before: a.size, after: b.size });
    }
    Ok(
        MdatPair {
            input_offset: a.offset,
            input_payload: a.payload_offset(),
            output_payload: b.payload_offset(),
            len: a.size - a.header_len as u64,
        },
    )
}

/// Index of the first of the paired `mdat` boxes, from `i` on, that changed
/// size or header form; the number of pairs when none did.
pub open spec fn first_changed(a: Seq<BoxHeader>, b: Seq<BoxHeader>, i: int) -> int
    decreases a.len() - i,
{
    if i >= a.len() {
        a.len() as int
    } else if mdat_changed(a[i], b[i]) {
        i
    } else {
        first_changed(a, b, i + 1)
    }
}

/// How the `mdat` boxes of a written file line up with the input's, before
/// their payloads are compared: the pairs, in order, up to the first `mdat`
/// that changed size or header form, and that change.
pub struct MdatLayout {
    pub pairs: Vec<MdatPair>,
    pub size_change: Option<Mp4Error>,
}

/// The checks on a written file's top level that need no payload: its
/// length is the planned one, it holds as many `mdat` boxes as the input,
/// and then the pairs up to the first `mdat` that changed, with that change.
pub open spec fn spec_mdat_layout(in_top: Seq<BoxHeader>, out_top: Seq<BoxHeader>, out_len: u64, expected_len: u64) -> Result<
    (Seq<MdatPair>, Option<Mp4Error>),
    Mp4Error,
> {
    let a = only_kind(in_top, mdat());
    let b = only_kind(out_top, mdat());
    if out_len != expected_len {
        Err(Mp4Error::OutputLength { found: out_len, expected: expected_len })
    } else if a.len() != b.len() {
        Err(Mp4Error::MdatCountChanged { before: a.len() as usize, after: b.len() as usize })
    } else {
        let k = first_changed(a, b, 0);
        Ok(
            (
                Seq::new(k as nat, |i: int| spec_mdat_pair(a[i], b[i]).unwrap()),
                if k < a.len() {
                    Some(Mp4Error::MdatSizeChanged { before: a[k].size, after: b[k].size })
                } else {
                    None
                },
            ),
        )
    }
}

/// Line up the `mdat` boxes of input and output after checking the output's
/// length (see [`spec_mdat_layout`]).
pub fn mdat_layout(in_top: &[BoxHeader], out_top: &[BoxHeader], out_len: u64, expected_len: u64) -> (r: Result<
    MdatLayout,
    Mp4Error,
>)
    requires
        forall|i: int| 0 <= i < in_top@.len() ==> (#[trigger] in_top@[i]).wf() && in_top@[i].end_pos() <= u64::MAX,
        forall|i: int| 0 <= i < out_top@.len() ==> (#[trigger] out_top@[i]).wf() && out_top@[i].end_pos() <= u64::MAX,
    ensures
        match spec_mdat_layout(in_top@, out_top@, out_len, expected_len) {
            Ok(l) => r matches Ok(m) && m.pairs@ == l.0 && m.size_change == l.1,
            Err(e) => r == Err::<MdatLayout, _>(e),
        },
{
    if out_len != expected_len {
        return Err(Mp4Error::OutputLength { found: out_len, expected: expected_len });
    }
    let a = mdat_boxes(in_top);
    let b = mdat_boxes(out_top);
    if a.len() != b.len() {
        return Err(Mp4Error::MdatCountChanged { before: a.len(), after: b.len() });
    }
    proof {
        lemma_only_kind_ok(in_top@, mdat());
        lemma_only_kind_ok(out_top@, mdat());
        assert forall|j: int| 0 <= j < a@.len() implies (#[trigger] a@[j]).wf() && a@[j].end_pos() <= u64::MAX by {
            assert(in_top@.contains(a@[j]));
            let t = choose|t: int| 0 <= t < in_top@.len() && in_top@[t] == a@[j];
            assert(in_top@[t].wf());
        }
        assert forall|j: int| 0 <= j < b@.len() implies (#[trigger] b@[j]).wf() && b@[j].end_pos() <= u64::MAX by {
            assert(out_top@.contains(b@[j]));
            let t = choose|t: int| 0 <= t < out_top@.len() && out_top@[t] == b@[j];
            assert(out_top@[t].wf());
        }
    }
    let mut pairs: Vec<MdatPair> = Vec::new();
    let mut i: usize = 0;
    while i < a.len()
        invariant
            i <= a@.len(),
            out_len == expected_len,
            a@ == only_kind(in_top@, mdat()),
            b@ == only_kind(out_top@, mdat()),
            a@.len() == b@.len(),
            forall|j: int| 0 <= j < a@.len() ==> (#[trigger] a@[j]).wf() && a@[j].end_pos() <= u64::MAX,
            forall|j: int| 0 <= j < b@.len() ==> (#[trigger] b@[j]).wf() && b@[j].end_pos() <= u64::MAX,
            first_changed(a@, b@, 0) == first_changed(a@, b@, i as int),
            pairs@ == Seq::new(i as nat, |j: int| spec_mdat_pair(a@[j], b@[j]).unwrap()),
        decreases a@.len() - i,
    {
        match mdat_pair(&a[i], &b[i]) {
            Ok(p) => {
                pairs.push(p);
            },
            Err(e) => {
                assert(mdat_changed(a@[i as int], b@[i as int]));
                assert(first_changed(a@, b@, i as int) == i);
                return Ok(MdatLayout { pairs, size_change: Some(e) });
            },
        }
        i = i + 1;
        assert(pairs@ =~= Seq::new(i as nat, |j: int| spec_mdat_pair(a@[j], b@[j]).unwrap()));
    }
    assert(first_changed(a@, b@, i as int) == a@.len());
    Ok(MdatLayout { pairs, size_change: None })
}

/// One compared `mdat` payload: when the hashes of its input and output
/// bytes agree, the count of compared bytes grows by its length; otherwise
/// the payload changed.
pub fn mdat_hash_step(compared: u64, pair: &MdatPair, input_hash: u64, output_hash: u64) -> (r: Result<
    u64,
    Mp4Error,
>)
    requires
        compared + pair.len <= u64::MAX,
    ensures
        input_hash == output_hash ==> r == Ok::<u64, Mp4Error>((compared + pair.len) as u64),
        input_hash != output_hash ==> r == Err::<u64, _>(
            Mp4Error::MdatPayloadChanged { offset: pair.input_offset },
        ),
{
    if input_hash != output_hash {
        return Err(Mp4Error::MdatPayloadChanged { offset: pair.input_offset });
    }
    Ok(compared + pair.len)
}

/// What the output `moov` must satisfy relative to the input `moov`.
#[derive(Debug, Clone, Copy)]
pub struct MoovExpectation {
    /// Serialized size of the single `covr` box expected in the output.
    pub covr_len: usize,
    /// Amount every chunk offset at or past `old_moov_end` must have moved.
    pub shift: i64,
    /// End offset of the input `moov` box.
    pub old_moov_end: u64,
}

impl MoovExpectation {
    /// What the output of `plan` must satisfy: one cover of the planned size,
    /// and offsets moved by `delta` only when the plan shifts `mdat`.
    pub fn from_plan(plan: &Plan) -> (r: Self)
        requires
            plan.old_moov.end_pos() <= u64::MAX,
        ensures
            r.covr_len == plan.covr_len,
            r.shift == (if plan.strategy == Strategy::ShiftAndPatch {
                plan.delta
            } else {
                0
            }),
            r.old_moov_end == plan.old_moov.end_pos(),
    {
        MoovExpectation {
            covr_len: plan.covr_len,
            shift: if plan.strategy == Strategy::ShiftAndPatch {
                plan.delta
            } else {
                0
            },
            old_moov_end: plan.old_moov.end(),
        }
    }
}

/// The value an input chunk offset `x` must have in the output.
pub open spec fn expected_offset(x: u64, want: MoovExpectation) -> u64 {
    if x >= want.old_moov_end {
        shifted(x, want.shift)
    } else {
        x
    }
}

/// The mismatch found at entry `i` of a pair of tables, if any.
pub open spec fn entry_mismatch(
    in_moov: Seq<u8>,
    out_moov: Seq<u8>,
    a: ChunkTable,
    b: ChunkTable,
    want: MoovExpectation,
    i: int,
) -> Option<Mp4Error> {
    let x = a.entry(in_moov, i) as u64;
    let y = b.entry(out_moov, i) as u64;
    let expect = expected_offset(x, want);
    if y != expect {
        Some(Mp4Error::ChunkOffsetMismatch { index: i as usize, found: y, expected: expect, input: x })
    } else {
        None
    }
}

/// The first mismatch among the first `n` entries of a pair of tables.
pub open spec fn first_mismatch(
    in_moov: Seq<u8>,
    out_moov: Seq<u8>,
    a: ChunkTable,
    b: ChunkTable,
    want: MoovExpectation,
    n: int,
) -> Option<Mp4Error>
    decreases n,
{
    if n <= 0 {
        None
    } else {
        match first_mismatch(in_moov, out_moov, a, b, want, n - 1) {
            Some(e) => Some(e),
            None => entry_mismatch(in_moov, out_moov, a, b, want, n - 1),
        }
    }
}

/// The first `k` pairs of tables compared in order: same kind and count,
/// and every entry where [`expected_offset`] puts it; the result counts the
/// entries compared.
pub open spec fn tables_check(
    in_moov: Seq<u8>,
    out_moov: Seq<u8>,
    ta: Seq<ChunkTable>,
    tb: Seq<ChunkTable>,
    want: MoovExpectation,
    k: int,
) -> Result<nat, Mp4Error>
    decreases k,
{
    if k <= 0 {
        Ok(0)
    } else {
        match tables_check(in_moov, out_moov, ta, tb, want, k - 1) {
            Err(e) => Err(e),
            Ok(n) => {
                let a = ta[k - 1];
                let b = tb[k - 1];
                if a.count != b.count || a.kind != b.kind {
                    Err(Mp4Error::TableShapeChanged)
                } else {
                    match first_mismatch(in_moov, out_moov, a, b, want, a.count as int) {
                        Some(e) => Err(e),
                        None => Ok(n + a.count as nat),
                    }
                }
            },
        }
    }
}

/// The comparison of an input and an output `moov`: exactly one `covr` of
/// the expected size in the output, then the chunk offset tables compared
/// pair by pair; the result counts the offsets compared.
pub open spec fn spec_check_moov_pair(in_moov: Seq<u8>, out_moov: Seq<u8>, want: MoovExpectation) -> Result<
    nat,
    Mp4Error,
> {
    match spec_find_covr(out_moov) {
        Err(e) => Err(e),
        Ok(cs) => if cs.len() != 1 {
            Err(Mp4Error::CovrCount { count: cs.len() as usize })
        } else if cs[0].size != want.covr_len {
            Err(Mp4Error::CovrSize { size: cs[0].size, expected_len: want.covr_len })
        } else {
            match spec_chunk_tables(in_moov) {
                Err(e) => Err(e),
                Ok(ta) => match spec_chunk_tables(out_moov) {
                    Err(e) => Err(e),
                    Ok(tb) => if ta.len() != tb.len() {
                        Err(Mp4Error::TableCountChanged)
                    } else {
                        tables_check(in_moov, out_moov, ta, tb, want, ta.len() as int)
                    },
                },
            }
        },
    }
}

/// A successful comparison of the `moov` boxes counts every entry of the
/// input's chunk offset tables.
pub proof fn lemma_check_counts_entries(in_moov: Seq<u8>, out_moov: Seq<u8>, want: MoovExpectation)
    ensures
        spec_check_moov_pair(in_moov, out_moov, want) matches Ok(n) ==> spec_chunk_tables(in_moov) matches Ok(
            ta,
        ) && n == sum_counts(ta),
{
    match spec_chunk_tables(in_moov) {
        Ok(ta) => {
            match spec_chunk_tables(out_moov) {
                Ok(tb) => {
                    lemma_tables_check_counts(in_moov, out_moov, ta, tb, want, ta.len() as int);
                    assert(ta.take(ta.len() as int) =~= ta);
                },
                Err(_) => {},
            }
        },
        Err(_) => {},
    }
}

/// What the comparison of the first `k` tables counts.
proof fn lemma_tables_check_counts(
    in_moov: Seq<u8>,
    out_moov: Seq<u8>,
    ta: Seq<ChunkTable>,
    tb: Seq<ChunkTable>,
    want: MoovExpectation,
    k: int,
)
    requires
        0 <= k <= ta.len(),
    ensures
        tables_check(in_moov, out_moov, ta, tb, want, k) matches Ok(n) ==> n == sum_counts(ta.take(k)),
    decreases k,
{
    if k > 0 {
        lemma_tables_check_counts(in_moov, out_moov, ta, tb, want, k - 1);
        lemma_sum_counts_next(ta, k - 1);
    } else {
        assert(ta.take(0) =~= Seq::<ChunkTable>::empty());
    }
}

/// Prefix sums of table counts, one table further.
proof fn lemma_sum_counts_next(ts: Seq<ChunkTable>, k: int)
    requires
        0 <= k < ts.len(),
    ensures
        sum_counts(ts.take(k + 1)) == sum_counts(ts.take(k)) + ts[k].count,
        sum_counts(ts.take(k + 1)) <= sum_counts(ts),
    decreases ts.len(),
{
    assert(ts.take(k + 1).drop_last() =~= ts.take(k));
    assert(ts.take(k + 1).last() == ts[k]);
    if k + 1 < ts.len() {
        lemma_sum_counts_next(ts.drop_last(), k);
        assert(ts.drop_last().take(k + 1) =~= ts.take(k + 1));
        assert(ts.drop_last().take(k) =~= ts.take(k));
        lemma_sum_counts_nonneg_last(ts);
    } else {
        assert(ts.take(k + 1) =~= ts);
    }
}

/// The counts of all tables sum to at least those of all but the last.
proof fn lemma_sum_counts_nonneg_last(ts: Seq<ChunkTable>)
    requires
        ts.len() > 0,
    ensures
        sum_counts(ts.drop_last()) <= sum_counts(ts),
{
}

/// IO-free half of the post-write check: compare two in-memory `moov`
/// boxes. Returns the number of chunk offsets checked.
pub fn check_moov_pair(in_moov: &[u8], out_moov: &[u8], want: &MoovExpectation) -> (r: Result<
    usize,
    Mp4Error,
>)
    ensures
        match spec_check_moov_pair(in_moov@, out_moov@, *want) {
            Ok(n) => r matches Ok(m) && m == n,
            Err(e) => r == Err::<usize, _>(e),
        },
{
    // Reading the lengths tells Verus that they fit in `usize`.
    let _ = in_moov.len();
    let _ = out_moov.len();
    let covr = match find_covr(out_moov) {
        Ok(c) => c,
        Err(e) => {
            return Err(e);
        },
    };
    if covr.len() != 1 {
        return Err(Mp4Error::CovrCount { count: covr.len() });
    }
    if covr[0].size != want.covr_len as u64 {
        return Err(Mp4Error::CovrSize { size: covr[0].size, expected_len: want.covr_len });
    }
    let in_tables = match chunk_tables(in_moov) {
        Ok(t) => t,
        Err(e) => {
            return Err(e);
        },
    };
    let out_tables = match chunk_tables(out_moov) {
        Ok(t) => t,
        Err(e) => {
            return Err(e);
        },
    };
    if in_tables.len() != out_tables.len() {
        return Err(Mp4Error::TableCountChanged);
    }
    proof {
        lemma_chunk_tables_ok(in_moov@);
        lemma_chunk_tables_ok(out_moov@);
        lemma_chunk_tables_total(in_moov@);
    }
    let mut checked: usize = 0;
    let mut k: usize = 0;
    assert(in_tables@.take(0) =~= Seq::<ChunkTable>::empty());
    while k < in_tables.len()
        invariant
            k <= in_tables@.len(),
            in_tables@.len() == out_tables@.len(),
            spec_chunk_tables(in_moov@) == Ok::<_, Mp4Error>(in_tables@),
            spec_chunk_tables(out_moov@) == Ok::<_, Mp4Error>(out_tables@),
            spec_find_covr(out_moov@) == Ok::<_, Mp4Error>(covr@),
            covr@.len() == 1,
            covr@[0].size == want.covr_len,
            forall|j: int|
                0 <= j < in_tables@.len() ==> (#[trigger] in_tables@[j]).fits(
                    in_moov@.len() as int,
                ),
            forall|j: int|
                0 <= j < out_tables@.len() ==> (#[trigger] out_tables@[j]).fits(
                    out_moov@.len() as int,
                ),
            sum_counts(in_tables@) * 4 <= in_moov@.len(),
            in_moov@.len() <= usize::MAX,
            tables_check(in_moov@, out_moov@, in_tables@, out_tables@, *want, k as int) == Ok::<
                nat,
                Mp4Error,
            >(checked as nat),
            checked == sum_counts(in_tables@.take(k as int)),
        decreases in_tables@.len() - k,
    {
        let a = in_tables[k];
        let b = out_tables[k];
        proof {
            lemma_sum_counts_next(in_tables@, k as int);
        }
        if a.count != b.count || !a.kind.is(&b.kind) {
            proof {
                lemma_tables_check_sticks(
                    in_moov@,
                    out_moov@,
                    in_tables@,
                    out_tables@,
                    *want,
                    k as int + 1,
                    in_tables@.len() as int,
                );
            }
            return Err(Mp4Error::TableShapeChanged);
        }
        let mut i: usize = 0;
        while i < a.count
            invariant
                i <= a.count,
                a.count == b.count,
                a.kind == b.kind,
                a.fits(in_moov@.len() as int),
                b.fits(out_moov@.len() as int),
                first_mismatch(in_moov@, out_moov@, a, b, *want, i as int) is None,
                k < in_tables@.len(),
                a == in_tables@[k as int],
                b == out_tables@[k as int],
                in_tables@.len() == out_tables@.len(),
                spec_chunk_tables(in_moov@) == Ok::<_, Mp4Error>(in_tables@),
                spec_chunk_tables(out_moov@) == Ok::<_, Mp4Error>(out_tables@),
                spec_find_covr(out_moov@) == Ok::<_, Mp4Error>(covr@),
                covr@.len() == 1,
                covr@[0].size == want.covr_len,
                tables_check(in_moov@, out_moov@, in_tables@, out_tables@, *want, k as int) == Ok::<
                    nat,
                    Mp4Error,
                >(checked as nat),
            decreases a.count - i,
        {
            let x = a.get(in_moov, i);
            let y = b.get(out_moov, i);
            let expect = if x >= want.old_moov_end {
                x.wrapping_add_signed(want.shift)
            } else {
                x
            };
            if y != expect {
                proof {
                    assert(first_mismatch(in_moov@, out_moov@, a, b, *want, i as int + 1) == Some(
                        Mp4Error::ChunkOffsetMismatch { index: i, found: y, expected: expect, input: x },
                    ));
                    lemma_first_mismatch_sticks(in_moov@, out_moov@, a, b, *want, i as int + 1, a.count as int);
                    lemma_tables_check_sticks(
                        in_moov@,
                        out_moov@,
                        in_tables@,
                        out_tables@,
                        *want,
                        k as int + 1,
                        in_tables@.len() as int,
                    );
                }
                return Err(
                    Mp4Error::ChunkOffsetMismatch { index: i, found: y, expected: expect, input: x },
                );
            }
            i = i + 1;
        }
        checked = checked + a.count;
        k = k + 1;
    }
    assert(in_tables@.take(k as int) =~= in_tables@);
    Ok(checked)
}

/// Once the comparison of some pairs of tables fails, the comparison of more
/// pairs fails the same way.
proof fn lemma_tables_check_sticks(
    in_moov: Seq<u8>,
    out_moov: Seq<u8>,
    ta: Seq<ChunkTable>,
    tb: Seq<ChunkTable>,
    want: MoovExpectation,
    k: int,
    m: int,
)
    requires
        k <= m,
        tables_check(in_moov, out_moov, ta, tb, want, k) is Err,
    ensures
        tables_check(in_moov, out_moov, ta, tb, want, m) == tables_check(
            in_moov,
            out_moov,
            ta,
            tb,
            want,
            k,
        ),
    decreases m - k,
{
    if k < m {
        lemma_tables_check_sticks(in_moov, out_moov, ta, tb, want, k, m - 1);
    }
}

/// The first mismatch found among some entries is the one found among more.
proof fn lemma_first_mismatch_sticks(
    in_moov: Seq<u8>,
    out_moov: Seq<u8>,
    a: ChunkTable,
    b: ChunkTable,
    want: MoovExpectation,
    n: int,
    m: int,
)
    requires
        n <= m,
        first_mismatch(in_moov, out_moov, a, b, want, n) is Some,
    ensures
        first_mismatch(in_moov, out_moov, a, b, want, m) == first_mismatch(
            in_moov,
            out_moov,
            a,
            b,
            want,
            n,
        ),
    decreases m - n,
{
    if n < m {
        lemma_first_mismatch_sticks(in_moov, out_moov, a, b, want, n, m - 1);
    }
}

/// Offset basis of FNV-1a 64.
pub const FNV1A_SEED: u64 = 0xcbf2_9ce4_8422_2325;

/// One FNV-1a 64 round: xor the byte in, multiply by the FNV prime modulo
/// 2^64.
pub open spec fn fnv1a_step(h: u64, b: u8) -> u64 {
    (((h ^ (b as u64)) as nat * 0x0000_0100_0000_01b3nat) % 0x1_0000_0000_0000_0000nat) as u64
}

/// The running FNV-1a 64 hash `h` with `bytes` folded in.
pub open spec fn fnv1a(h: u64, bytes: Seq<u8>) -> u64
    decreases bytes.len(),
{
    if bytes.len() == 0 {
        h
    } else {
        fnv1a_step(fnv1a(h, bytes.drop_last()), bytes.last())
    }
}

/// Fold `bytes` into a running FNV-1a 64 hash.
pub fn fnv1a_update(h: u64, bytes: &[u8]) -> (r: u64)
    ensures
        r == fnv1a(h, bytes@),
{
    let mut h = h;
    let ghost h0 = h;
    let mut i: usize = 0;
    while i < bytes.len()
        invariant
            i <= bytes@.len(),
            h == fnv1a(h0, bytes@.take(i as int)),
        decreases bytes@.len() - i,
    {
        assert(bytes@.take(i as int + 1).drop_last() =~= bytes@.take(i as int));
        assert(bytes@.take(i as int + 1).last() == bytes@[i as int]);
        h = h ^ (bytes[i] as u64);
        h = h.wrapping_mul(0x0000_0100_0000_01b3);
        i = i + 1;
    }
    assert(bytes@.take(i as int) =~= bytes@);
    h
}

/// Hashing in chunks gives the hash of the whole: folding `a` and then `b`
/// into a running hash is folding `a + b`.
pub proof fn law_fnv1a_chunks(h: u64, a: Seq<u8>, b: Seq<u8>)
    ensures
        fnv1a(fnv1a(h, a), b) == fnv1a(h, a + b),
    decreases b.len(),
{
    if b.len() == 0 {
        assert(a + b =~= a);
    } else {
        law_fnv1a_chunks(h, a, b.drop_last());
        assert((a + b).drop_last() =~= a + b.drop_last());
        assert((a + b).last() == b.last());
    }
}

/// The comparison of `moov` boxes accepts an output only when the walk
/// `udta/meta/ilst` of the output finds exactly one cover item, of the
/// expected size, and the input's and output's chunk offset tables can both
/// be read and are as many; an output with no cover, or with two or more, is
/// refused with their count.
pub proof fn law_check_needs_one_cover(in_moov: Seq<u8>, out_moov: Seq<u8>, want: MoovExpectation)
    ensures
        spec_check_moov_pair(in_moov, out_moov, want) is Ok ==> {
            &&& spec_find_covr(out_moov) matches Ok(cs) && cs.len() == 1 && cs[0].size == want.covr_len
            &&& spec_chunk_tables(in_moov) matches Ok(ta) && spec_chunk_tables(out_moov) matches Ok(tb)
                && ta.len() == tb.len()
        },
        match spec_find_covr(out_moov) {
            Ok(cs) => cs.len() != 1 ==> spec_check_moov_pair(in_moov, out_moov, want) == Err::<
                nat,
                Mp4Error,
            >(Mp4Error::CovrCount { count: cs.len() as usize }),
            Err(e) => spec_check_moov_pair(in_moov, out_moov, want) == Err::<nat, Mp4Error>(e),
        },
{
}

/// No mismatch among the first `n` entries means each of them is where the
/// comparison expects it.
proof fn lemma_no_mismatch_each(
    in_moov: Seq<u8>,
    out_moov: Seq<u8>,
    a: ChunkTable,
    b: ChunkTable,
    want: MoovExpectation,
    n: int,
)
    ensures
        first_mismatch(in_moov, out_moov, a, b, want, n) is None ==> forall|i: int|
            0 <= i < n ==> #[trigger] entry_mismatch(in_moov, out_moov, a, b, want, i) is None,
    decreases n,
{
    if n > 0 {
        lemma_no_mismatch_each(in_moov, out_moov, a, b, want, n - 1);
    }
}

/// A successful comparison of the first `k` tables leaves each pair of the
/// same kind and count with no entry out of place.
proof fn lemma_tables_check_each(
    in_moov: Seq<u8>,
    out_moov: Seq<u8>,
    ta: Seq<ChunkTable>,
    tb: Seq<ChunkTable>,
    want: MoovExpectation,
    k: int,
)
    ensures
        tables_check(in_moov, out_moov, ta, tb, want, k) is Ok ==> forall|m: int|
            0 <= m < k ==> {
                &&& (#[trigger] ta[m]).kind == tb[m].kind
                &&& ta[m].count == tb[m].count
                &&& first_mismatch(in_moov, out_moov, ta[m], tb[m], want, ta[m].count as int) is None
            },
    decreases k,
{
    if k > 0 {
        lemma_tables_check_each(in_moov, out_moov, ta, tb, want, k - 1);
    }
}

/// Every chunk offset of an accepted output is where the input's offset
/// should have gone: tables pair up one for one, of the same kind and count,
/// and each output entry is the input entry moved by the expected shift
/// (wrapping in 64 bits) when the input entry points at or past the end of
/// the old `moov`, and the input entry unchanged otherwise.
pub proof fn law_check_offsets_moved(in_moov: Seq<u8>, out_moov: Seq<u8>, want: MoovExpectation, m: int, i: int)
    requires
        spec_check_moov_pair(in_moov, out_moov, want) is Ok,
    ensures
        spec_chunk_tables(in_moov) matches Ok(ta) && spec_chunk_tables(out_moov) matches Ok(tb) && ta.len()
            == tb.len() && (0 <= m < ta.len() ==> ta[m].kind == tb[m].kind && ta[m].count == tb[m].count
            && (0 <= i < ta[m].count ==> {
            let x = ta[m].entry(in_moov, i) as u64;
            let y = tb[m].entry(out_moov, i) as u64;
            if x >= want.old_moov_end {
                y == shifted(x, want.shift)
            } else {
                y == x
            }
        })),
{
    let ta = spec_chunk_tables(in_moov).unwrap();
    let tb = spec_chunk_tables(out_moov).unwrap();
    lemma_tables_check_each(in_moov, out_moov, ta, tb, want, ta.len() as int);
    if 0 <= m < ta.len() {
        assert(ta[m].kind == tb[m].kind);
        lemma_no_mismatch_each(in_moov, out_moov, ta[m], tb[m], want, ta[m].count as int);
        if 0 <= i < ta[m].count {
            assert(entry_mismatch(in_moov, out_moov, ta[m], tb[m], want, i) is None);
        }
    }
}

} // verus!
