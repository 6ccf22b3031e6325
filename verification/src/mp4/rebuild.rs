//! In-memory rewrite of the `moov` box: replace `udta/meta/ilst/covr`,
//! creating any missing ancestor, and recompute only the ancestors' sizes.
//! Every other byte of `moov` is copied verbatim.

use vstd::prelude::*;

use super::be::{push_all, push_range};
use super::box_header::{box_bytes, lemma_box_bytes_shape, with_header, written_header_len, BoxHeader, FourCc};
use super::error::Mp4Error;
use super::finder::{
    child_prefix_len, container_children, covers_path, covr, has_kind, hdlr, ilst,
    lemma_children_len, lemma_children_ok, lemma_sum_sizes_concat, sum_sizes, lemma_container_children_ok, lemma_moov_header_ok, meta,
    moov_header, spec_container_children, spec_moov_header, spec_prefix_len, udta,
};

verus! {

/// What the rebuild did, for reporting.
#[derive(Debug)]
pub struct RebuildStats {
    /// Number of existing `covr` boxes dropped.
    pub removed_covr: usize,
    /// Boxes that did not exist and were created.
    pub created: Vec<&'static str>,
}

impl Default for RebuildStats {
    fn default() -> (r: Self)
        ensures
            r.removed_covr == 0,
            r.created@ == Seq::<&'static str>::empty(),
    {
        RebuildStats { removed_covr: 0, created: Vec::new() }
    }
}

/// The bytes of the boxes `ks` of `buf`, one after the other.
pub open spec fn spans(buf: Seq<u8>, ks: Seq<BoxHeader>) -> Seq<u8>
    decreases ks.len(),
{
    if ks.len() == 0 {
        Seq::empty()
    } else {
        spans(buf, ks.drop_last()) + buf.subrange(ks.last().offset as int, ks.last().end_pos())
    }
}

/// The headers of `ks` whose type is not `kind`, in order.
pub open spec fn without_kind(ks: Seq<BoxHeader>, kind: FourCc) -> Seq<BoxHeader>
    decreases ks.len(),
{
    if ks.len() == 0 {
        Seq::empty()
    } else if ks.last().kind == kind {
        without_kind(ks.drop_last(), kind)
    } else {
        without_kind(ks.drop_last(), kind).push(ks.last())
    }
}

/// How many of `ks` have type `kind`.
pub open spec fn count_kind(ks: Seq<BoxHeader>, kind: FourCc) -> nat
    decreases ks.len(),
{
    if ks.len() == 0 {
        0
    } else if ks.last().kind == kind {
        count_kind(ks.drop_last(), kind) + 1
    } else {
        count_kind(ks.drop_last(), kind)
    }
}

/// Index of the first of `ks` of type `kind`; `ks.len()` when there is none.
pub open spec fn first_of(ks: Seq<BoxHeader>, kind: FourCc) -> int
    decreases ks.len(),
{
    if ks.len() == 0 {
        0
    } else if ks[0].kind == kind {
        0
    } else {
        1 + first_of(ks.drop_first(), kind)
    }
}

/// [`first_of`] is the first index of that type.
pub proof fn lemma_first_of(ks: Seq<BoxHeader>, kind: FourCc)
    ensures
        0 <= first_of(ks, kind) <= ks.len(),
        forall|i: int| 0 <= i < first_of(ks, kind) ==> (#[trigger] ks[i]).kind != kind,
        first_of(ks, kind) < ks.len() ==> ks[first_of(ks, kind)].kind == kind,
    decreases ks.len(),
{
    if ks.len() > 0 && ks[0].kind != kind {
        lemma_first_of(ks.drop_first(), kind);
        assert forall|i: int| 0 <= i < first_of(ks, kind) implies (#[trigger] ks[i]).kind
            != kind by {
            if i > 0 {
                assert(ks[i] == ks.drop_first()[i - 1]);
            }
        }
    }
}

/// Name under which a synthesized box is reported.
pub open spec fn created_name(kind: FourCc) -> &'static str {
    if kind == udta() {
        "udta"
    } else if kind == meta() {
        "meta"
    } else {
        "ilst"
    }
}

/// Body of the `hdlr` box written for iTunes metadata.
pub open spec fn hdlr_body() -> Seq<u8> {
    seq![
        0u8, 0u8, 0u8, 0u8,
        0u8, 0u8, 0u8, 0u8,
        0x6du8, 0x64u8, 0x69u8, 0x72u8,
        0x61u8, 0x70u8, 0x70u8, 0x6cu8,
        0u8, 0u8, 0u8, 0u8, 0u8, 0u8, 0u8, 0u8,
        0u8,
    ]
}

/// The `hdlr` box for iTunes metadata: handler `mdir`, reserved `appl`,
/// empty name (33 bytes).
pub open spec fn hdlr_bytes() -> Seq<u8> {
    box_bytes(hdlr(), 8, hdlr_body())
}

/// A missing `kind` box and its missing descendants along `rest`, holding
/// `covr` at the bottom, with the names of the boxes created in order.
pub open spec fn spec_synthesize(kind: FourCc, rest: Seq<FourCc>, covr_box: Seq<u8>) -> (
    Seq<u8>,
    Seq<&'static str>,
)
    decreases rest.len(),
{
    if rest.len() == 0 {
        (box_bytes(kind, 8, covr_box), seq![created_name(kind)])
    } else {
        let inner = spec_synthesize(rest[0], rest.drop_first(), covr_box);
        let body = if kind == meta() {
            seq![0u8, 0u8, 0u8, 0u8] + hdlr_bytes() + inner.0
        } else {
            inner.0
        };
        (box_bytes(kind, 8, body), seq![created_name(kind)] + inner.1)
    }
}

/// Result of rebuilding one container: its new bytes, how many `covr`
/// items were dropped, and the names of the boxes created, in order.
pub type Rebuilt = (Seq<u8>, nat, Seq<&'static str>);

/// Container `hdr` of `buf` rebuilt along `path` (the chain of child types
/// leading to `ilst`; empty when `hdr` is `ilst` itself): in `ilst` every
/// item but `covr` is kept and `covr_box` appended; above it the first child
/// of the next type on the path is rebuilt in place, or the missing chain is
/// appended; a `meta` without `hdlr` gets one first. Everything else is
/// copied verbatim and the size field is recomputed.
#[verifier::opaque]
pub open spec fn spec_rebuild(buf: Seq<u8>, hdr: BoxHeader, path: Seq<FourCc>, covr_box: Seq<u8>) -> Result<
    Rebuilt,
    Mp4Error,
>
    decreases path.len(),
{
    match spec_container_children(buf, hdr) {
        Err(e) => Err(e),
        Ok(kids) => {
            let p = hdr.payload();
            let n = spec_prefix_len(buf, hdr);
            if p + n > buf.len() {
                Err(Mp4Error::TruncatedPrefix { kind: hdr.kind, offset: hdr.offset })
            } else {
                let pre = buf.subrange(p, p + n);
                if path.len() == 0 {
                    Ok(
                        (
                            box_bytes(
                                hdr.kind,
                                hdr.header_len,
                                pre + spans(buf, without_kind(kids, covr())) + covr_box,
                            ),
                            count_kind(kids, covr()),
                            Seq::empty(),
                        ),
                    )
                } else {
                    let add_hdlr = hdr.kind == meta() && !has_kind(kids, hdlr());
                    let hd = if add_hdlr {
                        hdlr_bytes()
                    } else {
                        Seq::empty()
                    };
                    let c0: Seq<&'static str> = if add_hdlr {
                        seq!["hdlr"]
                    } else {
                        Seq::empty()
                    };
                    let j = first_of(kids, path[0]);
                    if j < kids.len() {
                        match spec_rebuild(buf, kids[j], path.drop_first(), covr_box) {
                            Err(e) => Err(e),
                            Ok(inner) => Ok(
                                (
                                    box_bytes(
                                        hdr.kind,
                                        hdr.header_len,
                                        pre + hd + spans(buf, kids.take(j)) + inner.0 + spans(
                                            buf,
                                            kids.skip(j + 1),
                                        ),
                                    ),
                                    inner.1,
                                    c0 + inner.2,
                                ),
                            ),
                        }
                    } else {
                        let s = spec_synthesize(path[0], path.drop_first(), covr_box);
                        Ok(
                            (
                                box_bytes(hdr.kind, hdr.header_len, pre + hd + spans(buf, kids) + s.0),
                                0,
                                c0 + s.1,
                            ),
                        )
                    }
                }
            }
        },
    }
}

/// `moov` rebuilt with `covr_box` as its only cover item.
pub open spec fn spec_replace_cover(moov: Seq<u8>, covr_box: Seq<u8>) -> Result<Rebuilt, Mp4Error> {
    match spec_moov_header(moov) {
        Err(e) => Err(e),
        Ok(h) => spec_rebuild(moov, h, covers_path(), covr_box),
    }
}

/// Upper bound on how much a rebuild can add besides the new cover.
pub open spec fn growth(path_len: int) -> int {
    256 * (path_len + 1)
}

/// Length of the boxes of `ks` together, when they sit back to back.
pub proof fn lemma_spans_len(buf: Seq<u8>, ks: Seq<BoxHeader>)
    requires
        forall|i: int| 0 <= i < ks.len() ==> (#[trigger] ks[i]).end_pos() <= buf.len() && ks[i].offset <= ks[i].end_pos(),
    ensures
        spans(buf, ks).len() == sum_sizes(ks),
    decreases ks.len(),
{
    if ks.len() > 0 {
        assert forall|i: int| 0 <= i < ks.drop_last().len() implies (#[trigger] ks.drop_last()[i]).end_pos()
            <= buf.len() && ks.drop_last()[i].offset <= ks.drop_last()[i].end_pos() by {
            assert(ks.drop_last()[i] == ks[i]);
        }
        lemma_spans_len(buf, ks.drop_last());
        assert(ks.last() == ks[ks.len() - 1]);
    }
}

/// Spans add up over a concatenation.
pub proof fn lemma_spans_concat(buf: Seq<u8>, a: Seq<BoxHeader>, b: Seq<BoxHeader>)
    ensures
        spans(buf, a + b) == spans(buf, a) + spans(buf, b),
    decreases b.len(),
{
    if b.len() == 0 {
        assert(a + b =~= a);
        assert(spans(buf, a) + spans(buf, b) =~= spans(buf, a));
    } else {
        assert((a + b).drop_last() =~= a + b.drop_last());
        lemma_spans_concat(buf, a, b.drop_last());
        assert(spans(buf, a + b) =~= spans(buf, a) + spans(buf, b));
    }
}

/// Siblings that sit back to back from `start` fill exactly the bytes up to
/// the end of the last one.
pub proof fn lemma_sum_sizes_contiguous(ks: Seq<BoxHeader>, start: int)
    requires
        ks.len() > 0 ==> ks[0].offset == start,
        forall|i: int| 1 <= i < ks.len() ==> #[trigger] ks[i].offset == ks[i - 1].end_pos(),
    ensures
        ks.len() > 0 ==> sum_sizes(ks) == ks.last().end_pos() - start,
    decreases ks.len(),
{
    if ks.len() > 1 {
        let d = ks.drop_last();
        assert forall|i: int| 1 <= i < d.len() implies #[trigger] d[i].offset == d[i - 1].end_pos() by {
            assert(d[i] == ks[i]);
            assert(d[i - 1] == ks[i - 1]);
        }
        lemma_sum_sizes_contiguous(d, start);
        assert(ks[ks.len() - 1].offset == ks[ks.len() - 2].end_pos());
        assert(d.last() == ks[ks.len() - 2]);
        assert(ks.last() == ks[ks.len() - 1]);
        assert(sum_sizes(ks) == sum_sizes(d) + ks.last().size);
    } else if ks.len() == 1 {
        assert(ks.drop_last() =~= Seq::<BoxHeader>::empty());
        assert(sum_sizes(Seq::<BoxHeader>::empty()) == 0);
        assert(ks.last() == ks[0]);
        assert(sum_sizes(ks) == sum_sizes(ks.drop_last()) + ks.last().size);
    }
}

/// Children of a container fill at most its payload.
pub proof fn lemma_children_fill(buf: Seq<u8>, hdr: BoxHeader)
    requires
        hdr.wf(),
        buf.len() <= u64::MAX,
    ensures
        spec_container_children(buf, hdr) matches Ok(kids) ==> {
            &&& sum_sizes(kids) <= hdr.size - hdr.header_len
            &&& spans(buf, kids).len() == sum_sizes(kids)
            &&& kids.len() <= buf.len()
            &&& forall|i: int|
                0 <= i < kids.len() ==> {
                    &&& (#[trigger] kids[i]).wf()
                    &&& kids[i].end_pos() <= buf.len()
                    &&& kids[i].end_pos() <= hdr.end_pos()
                }
        },
{
    let start = hdr.payload() + spec_prefix_len(buf, hdr);
    lemma_children_ok(buf, start, hdr.end_pos());
    lemma_container_children_ok(buf, hdr);
    match spec_container_children(buf, hdr) {
        Ok(kids) => {
            lemma_sum_sizes_contiguous(kids, start);
            lemma_spans_len(buf, kids);
            if kids.len() > 0 {
                assert(kids.last() == kids[kids.len() - 1]);
            }
        },
        Err(_) => {},
    }
}

/// Sizes of a prefix and a suffix of `ks` around index `j`.
pub proof fn lemma_sum_sizes_split(ks: Seq<BoxHeader>, j: int)
    requires
        0 <= j < ks.len(),
    ensures
        sum_sizes(ks) == sum_sizes(ks.take(j)) + ks[j].size + sum_sizes(ks.skip(j + 1)),
{
    assert(ks =~= ks.take(j) + seq![ks[j]] + ks.skip(j + 1));
    lemma_sum_sizes_concat(ks.take(j) + seq![ks[j]], ks.skip(j + 1));
    lemma_sum_sizes_concat(ks.take(j), seq![ks[j]]);
    assert(sum_sizes(seq![ks[j]]) == ks[j].size) by {
        assert(seq![ks[j]].drop_last() =~= Seq::<BoxHeader>::empty());
        assert(seq![ks[j]].last() == ks[j]);
        assert(sum_sizes(Seq::<BoxHeader>::empty()) == 0);
    }
}

/// Sizes only shrink when some boxes are left out.
pub proof fn lemma_sum_sizes_without(ks: Seq<BoxHeader>, kind: FourCc)
    ensures
        sum_sizes(without_kind(ks, kind)) <= sum_sizes(ks),
        count_kind(ks, kind) <= ks.len(),
        forall|i: int|
            0 <= i < without_kind(ks, kind).len() ==> ks.contains(
                #[trigger] without_kind(ks, kind)[i],
            ),
    decreases ks.len(),
{
    if ks.len() > 0 {
        let d = ks.drop_last();
        lemma_sum_sizes_without(d, kind);
        let w = without_kind(ks, kind);
        let wd = without_kind(d, kind);
        if ks.last().kind != kind {
            assert(w.drop_last() =~= wd);
            assert(w.last() == ks.last());
        }
        assert forall|i: int| 0 <= i < w.len() implies ks.contains(#[trigger] w[i]) by {
            if ks.last().kind != kind && i == w.len() - 1 {
                assert(ks[ks.len() - 1] == w[i]);
            } else {
                assert(w[i] == wd[i]);
                assert(d.contains(wd[i]));
                let k = choose|k: int| 0 <= k < d.len() && d[k] == wd[i];
                assert(ks[k] == d[k]);
            }
        }
    }
}

/// A synthesized chain holds the cover plus a bounded amount of framing.
pub proof fn lemma_synthesize_len(kind: FourCc, rest: Seq<FourCc>, covr_box: Seq<u8>)
    ensures
        spec_synthesize(kind, rest, covr_box).0.len() <= covr_box.len() + 64 * (rest.len() + 1),
        spec_synthesize(kind, rest, covr_box).0.len() >= covr_box.len(),
    decreases rest.len(),
{
    let hdlr_len = hdlr_bytes().len();
    lemma_box_bytes_shape(hdlr(), 8, hdlr_body());
    if rest.len() == 0 {
        lemma_box_bytes_shape(kind, 8, covr_box);
    } else {
        lemma_synthesize_len(rest[0], rest.drop_first(), covr_box);
        let inner = spec_synthesize(rest[0], rest.drop_first(), covr_box);
        let body = if kind == meta() {
            seq![0u8, 0u8, 0u8, 0u8] + hdlr_bytes() + inner.0
        } else {
            inner.0
        };
        lemma_box_bytes_shape(kind, 8, body);
    }
}

/// A rebuilt container grows by at most the new cover plus
/// [`growth`] bytes of framing.
#[verifier::rlimit(80)]
pub proof fn lemma_rebuild_len(buf: Seq<u8>, hdr: BoxHeader, path: Seq<FourCc>, covr_box: Seq<u8>)
    requires
        hdr.wf(),
        hdr.end_pos() <= buf.len(),
        buf.len() <= u64::MAX,
    ensures
        spec_rebuild(buf, hdr, path, covr_box) matches Ok(r) ==> r.0.len() <= hdr.size
            + covr_box.len() + growth(path.len() as int),
    decreases path.len(),
{
    reveal(spec_rebuild);
    lemma_children_fill(buf, hdr);
    lemma_box_bytes_shape(hdlr(), 8, hdlr_body());
    match spec_container_children(buf, hdr) {
        Ok(kids) => {
            let p = hdr.payload();
            let n = spec_prefix_len(buf, hdr);
            if p + n <= buf.len() {
                let pre = buf.subrange(p, p + n);
                if path.len() == 0 {
                    let w = without_kind(kids, covr());
                    lemma_sum_sizes_without(kids, covr());
                    assert forall|i: int| 0 <= i < w.len() implies (#[trigger] w[i]).end_pos()
                        <= buf.len() && w[i].offset <= w[i].end_pos() by {
                        let k = choose|k: int| 0 <= k < kids.len() && kids[k] == w[i];
                        assert(kids[k].wf());
                    }
                    lemma_spans_len(buf, w);
                    lemma_box_bytes_shape(hdr.kind, hdr.header_len, pre + spans(buf, w) + covr_box);
                } else {
                    let j = first_of(kids, path[0]);
                    lemma_first_of(kids, path[0]);
                    let add_hdlr = hdr.kind == meta() && !has_kind(kids, hdlr());
                    let hd = if add_hdlr {
                        hdlr_bytes()
                    } else {
                        Seq::empty()
                    };
                    if j < kids.len() {
                        lemma_rebuild_len(buf, kids[j], path.drop_first(), covr_box);
                        match spec_rebuild(buf, kids[j], path.drop_first(), covr_box) {
                            Ok(inner) => {
                                lemma_sum_sizes_split(kids, j);
                                assert forall|i: int| 0 <= i < kids.take(j).len() implies (
                                #[trigger] kids.take(j)[i]).end_pos() <= buf.len()
                                    && kids.take(j)[i].offset <= kids.take(j)[i].end_pos() by {
                                    assert(kids.take(j)[i] == kids[i]);
                                }
                                assert forall|i: int| 0 <= i < kids.skip(j + 1).len() implies (
                                #[trigger] kids.skip(j + 1)[i]).end_pos() <= buf.len()
                                    && kids.skip(j + 1)[i].offset <= kids.skip(j + 1)[i].end_pos() by {
                                    assert(kids.skip(j + 1)[i] == kids[i + j + 1]);
                                }
                                lemma_spans_len(buf, kids.take(j));
                                lemma_spans_len(buf, kids.skip(j + 1));
                                lemma_box_bytes_shape(
                                    hdr.kind,
                                    hdr.header_len,
                                    pre + hd + spans(buf, kids.take(j)) + inner.0 + spans(
                                        buf,
                                        kids.skip(j + 1),
                                    ),
                                );
                            },
                            Err(_) => {},
                        }
                    } else {
                        lemma_synthesize_len(path[0], path.drop_first(), covr_box);
                        let s = spec_synthesize(path[0], path.drop_first(), covr_box);
                        lemma_box_bytes_shape(hdr.kind, hdr.header_len, pre + hd + spans(buf, kids) + s.0);
                    }
                }
            }
        },
        Err(_) => {},
    }
}

/// Exec name of a synthesized box.
fn created_name_of(kind: &FourCc) -> (r: &'static str)
    ensures
        r == created_name(*kind),
{
    if kind.is(&udta()) {
        "udta"
    } else if kind.is(&meta()) {
        "meta"
    } else {
        "ilst"
    }
}

/// `hdlr` for iTunes metadata: handler `mdir`, reserved `appl`, empty name.
/// Matches what FFmpeg and iTunes write (33 bytes).
pub fn hdlr_box() -> (r: Vec<u8>)
    ensures
        r@ == hdlr_bytes(),
{
    let body: [u8; 25] = [
        0, 0, 0, 0,
        0, 0, 0, 0,
        0x6d, 0x64, 0x69, 0x72,
        0x61, 0x70, 0x70, 0x6c,
        0, 0, 0, 0, 0, 0, 0, 0,
        0,
    ];
    assert(body@ =~= hdlr_body());
    with_header(hdlr(), 8, &body)
}

/// Create a missing `udta` / `meta` / `ilst` chain around the cover.
fn synthesize(kind: FourCc, rest: &[FourCc], covr_box: &[u8], stats: &mut RebuildStats) -> (r: Vec<
    u8,
>)
    requires
        covr_box@.len() + 64 * (rest@.len() + 1) + 16 <= u64::MAX,
    ensures
        r@ == spec_synthesize(kind, rest@, covr_box@).0,
        final(stats).created@ == old(stats).created@ + spec_synthesize(kind, rest@, covr_box@).1,
        final(stats).removed_covr == old(stats).removed_covr,
    decreases rest@.len(),
{
    let name = created_name_of(&kind);
    stats.created.push(name);
    if rest.len() == 0 {
        return with_header(kind, 8, covr_box);
    }
    let next = rest[0];
    let tail = vstd::slice::slice_subrange(rest, 1, rest.len());
    assert(tail@ =~= rest@.drop_first());
    let ghost mid = stats.created@;
    let inner = synthesize(next, tail, covr_box, stats);
    proof {
        lemma_synthesize_len(next, tail@, covr_box@);
        lemma_box_bytes_shape(hdlr(), 8, hdlr_body());
    }
    let mut b: Vec<u8> = Vec::new();
    if kind.is(&meta()) {
        b.push(0);
        b.push(0);
        b.push(0);
        b.push(0);
        let h = hdlr_box();
        push_all(&mut b, &h);
    }
    push_all(&mut b, &inner);
    assert(stats.created@ =~= old(stats).created@ + spec_synthesize(kind, rest@, covr_box@).1);
    assert(b@ =~= (if kind == meta() {
        seq![0u8, 0u8, 0u8, 0u8] + hdlr_bytes() + inner@
    } else {
        inner@
    }));
    with_header(kind, 8, &b)
}

/// Rebuild container `hdr`, descending along `path` (the chain of child kinds
/// leading to `ilst`). An empty `path` means `hdr` is `ilst` itself.
#[verifier::rlimit(80)]
fn rebuild(
    buf: &[u8],
    hdr: &BoxHeader,
    path: &[FourCc],
    covr_box: &[u8],
    stats: &mut RebuildStats,
) -> (r: Result<Vec<u8>, Mp4Error>)
    requires
        hdr.wf(),
        hdr.end_pos() <= buf@.len(),
        buf@.len() + covr_box@.len() + growth(path@.len() as int) + 16 <= u64::MAX,
        old(stats).removed_covr + buf@.len() <= usize::MAX,
    ensures
        match spec_rebuild(buf@, *hdr, path@, covr_box@) {
            Ok(res) => {
                &&& r matches Ok(v) && v@ == res.0
                &&& final(stats).removed_covr == old(stats).removed_covr + res.1
                &&& final(stats).created@ == old(stats).created@ + res.2
            },
            Err(e) => r == Err::<Vec<u8>, _>(e),
        },
    decreases path@.len(),
{
    proof {
        reveal(spec_rebuild);
    }
    let n = buf.len();
    let p = hdr.payload_offset();
    let prefix = child_prefix_len(buf, hdr);
    let kids = match container_children(buf, hdr) {
        Ok(k) => k,
        Err(e) => {
            return Err(e);
        },
    };
    proof {
        lemma_children_fill(buf@, *hdr);
        lemma_box_bytes_shape(hdlr(), 8, hdlr_body());
    }
    if p > n as u64 || (n as u64 - p) < prefix as u64 {
        return Err(Mp4Error::TruncatedPrefix { kind: hdr.kind, offset: hdr.offset });
    }
    let ghost pre = buf@.subrange(p as int, p + prefix);
    let mut body: Vec<u8> = Vec::new();
    push_range(&mut body, buf, p as usize, p as usize + prefix);
    assert(body@ =~= pre);
    if path.len() == 0 {
        let ghost removed0 = stats.removed_covr;
        let mut i: usize = 0;
        while i < kids.len()
            invariant
                i <= kids@.len(),
                kids@.len() <= buf@.len(),
                stats.removed_covr == removed0 + count_kind(kids@.take(i as int), covr()),
                removed0 + buf@.len() <= usize::MAX,
                body@ == pre + spans(buf@, without_kind(kids@.take(i as int), covr())),
                forall|j: int|
                    0 <= j < kids@.len() ==> (#[trigger] kids@[j]).wf() && kids@[j].end_pos()
                        <= buf@.len(),
                stats.created@ == old(stats).created@,
            decreases kids@.len() - i,
        {
            let k = kids[i];
            assert(kids@.take(i as int + 1).drop_last() =~= kids@.take(i as int));
            assert(kids@.take(i as int + 1).last() == k);
            proof {
                lemma_sum_sizes_without(kids@.take(i as int), covr());
            }
            if k.kind.is(&covr()) {
                stats.removed_covr = stats.removed_covr + 1;
            } else {
                let ghost before = body@;
                push_range(&mut body, buf, k.offset as usize, k.end() as usize);
                proof {
                    let w = without_kind(kids@.take(i as int), covr());
                    assert(without_kind(kids@.take(i as int + 1), covr()) == w.push(k));
                    assert(w.push(k).drop_last() =~= w);
                    assert(w.push(k).last() == k);
                    assert(spans(buf@, w.push(k)) == spans(buf@, w) + buf@.subrange(
                        k.offset as int,
                        k.end_pos(),
                    ));
                }
                assert(body@ =~= pre + spans(buf@, without_kind(kids@.take(i as int + 1), covr())));
            }
            i = i + 1;
        }
        assert(kids@.take(i as int) =~= kids@);
        push_all(&mut body, covr_box);
        proof {
            lemma_rebuild_len(buf@, *hdr, path@, covr_box@);
            lemma_box_bytes_shape(
                hdr.kind,
                hdr.header_len,
                pre + spans(buf@, without_kind(kids@, covr())) + covr_box@,
            );
        }
        return Ok(with_header(hdr.kind, hdr.header_len, &body));
    }
    let next = path[0];
    let rest = vstd::slice::slice_subrange(path, 1, path.len());
    assert(rest@ =~= path@.drop_first());
    let mut has_hdlr = false;
    let mut i: usize = 0;
    while i < kids.len()
        invariant
            i <= kids@.len(),
            has_hdlr == exists|j: int| 0 <= j < i && (#[trigger] kids@[j]).kind == hdlr(),
        decreases kids@.len() - i,
    {
        if kids[i].kind.is(&hdlr()) {
            has_hdlr = true;
        }
        i = i + 1;
    }
    assert(has_hdlr == has_kind(kids@, hdlr()));
    let add_hdlr = hdr.kind.is(&meta()) && !has_hdlr;
    let ghost hd = if add_hdlr {
        hdlr_bytes()
    } else {
        Seq::empty()
    };
    if add_hdlr {
        stats.created.push("hdlr");
        let h = hdlr_box();
        push_all(&mut body, &h);
    }
    assert(body@ =~= pre + hd);
    let ghost created0 = stats.created@;
    assert(created0 == old(stats).created@ + (if hdr.kind == meta() && !has_kind(kids@, hdlr()) {
        seq!["hdlr"]
    } else {
        Seq::<&'static str>::empty()
    }));
    proof {
        lemma_first_of(kids@, next);
    }
    let ghost j0 = first_of(kids@, next);
    let mut replaced = false;
    let mut i: usize = 0;
    while i < kids.len()
        invariant
            i <= kids@.len(),
            kids@.len() <= buf@.len(),
            path@.len() > 0,
            next == path@[0],
            rest@ == path@.drop_first(),
            0 <= j0 <= kids@.len(),
            j0 == first_of(kids@, next),
            forall|t: int| 0 <= t < j0 ==> (#[trigger] kids@[t]).kind != next,
            j0 < kids@.len() ==> kids@[j0].kind == next,
            replaced <==> j0 < i,
            forall|t: int|
                0 <= t < kids@.len() ==> (#[trigger] kids@[t]).wf() && kids@[t].end_pos()
                    <= buf@.len(),
            buf@.len() + covr_box@.len() + growth(path@.len() as int) + 16 <= u64::MAX,
            spec_container_children(buf@, *hdr) == Ok::<_, Mp4Error>(kids@),
            !replaced ==> {
                &&& body@ == pre + hd + spans(buf@, kids@.take(i as int))
                &&& stats.created@ == created0
                &&& stats.removed_covr == old(stats).removed_covr
            },
            replaced ==> (spec_rebuild(buf@, kids@[j0], rest@, covr_box@) matches Ok(inner) && {
                &&& body@ == pre + hd + spans(buf@, kids@.take(j0)) + inner.0 + spans(
                    buf@,
                    kids@.subrange(j0 + 1, i as int),
                )
                &&& stats.created@ == created0 + inner.2
                &&& stats.removed_covr == old(stats).removed_covr + inner.1
            }),
            old(stats).removed_covr + buf@.len() <= usize::MAX,
            hdr.payload() + spec_prefix_len(buf@, *hdr) <= buf@.len(),
            pre == buf@.subrange(hdr.payload(), hdr.payload() + spec_prefix_len(buf@, *hdr)),
            hd == (if hdr.kind == meta() && !has_kind(kids@, hdlr()) {
                hdlr_bytes()
            } else {
                Seq::<u8>::empty()
            }),
            created0 == old(stats).created@ + (if hdr.kind == meta() && !has_kind(kids@, hdlr()) {
                seq!["hdlr"]
            } else {
                Seq::<&'static str>::empty()
            }),
        decreases kids@.len() - i,
    {
        let k = kids[i];
        if !replaced && k.kind.is(&next) {
            assert(i == j0);
            proof {
                assert(k.end_pos() <= buf@.len());
            }
            let b = match rebuild(buf, &k, rest, covr_box, stats) {
                Ok(b) => b,
                Err(e) => {
                    proof {
                        assert(k == kids@[j0]);
                        assert(spec_rebuild(buf@, kids@[j0], rest@, covr_box@) == Err::<Rebuilt, _>(
                            e,
                        ));
                        assert(first_of(kids@, path@[0]) == j0);
                        reveal(spec_rebuild);
                        assert(spec_rebuild(buf@, *hdr, path@, covr_box@) == Err::<Rebuilt, _>(e));
                    }
                    return Err(e);
                },
            };
            push_all(&mut body, &b);
            replaced = true;
            assert(kids@.subrange(j0 + 1, i as int + 1) =~= Seq::<BoxHeader>::empty());
            assert(body@ =~= pre + hd + spans(buf@, kids@.take(j0)) + b@ + spans(
                buf@,
                kids@.subrange(j0 + 1, i as int + 1),
            ));
        } else {
            push_range(&mut body, buf, k.offset as usize, k.end() as usize);
            if replaced {
                assert(kids@.subrange(j0 + 1, i as int + 1).drop_last() =~= kids@.subrange(
                    j0 + 1,
                    i as int,
                ));
                assert(body@ =~= pre + hd + spans(buf@, kids@.take(j0)) + spec_rebuild(
                    buf@,
                    kids@[j0],
                    rest@,
                    covr_box@,
                ).unwrap().0 + spans(buf@, kids@.subrange(j0 + 1, i as int + 1)));
            } else {
                assert(kids@.take(i as int + 1).drop_last() =~= kids@.take(i as int));
                assert(body@ =~= pre + hd + spans(buf@, kids@.take(i as int + 1)));
            }
        }
        i = i + 1;
    }
    if !replaced {
        assert(kids@.take(i as int) =~= kids@);
        proof {
            lemma_synthesize_len(next, rest@, covr_box@);
        }
        let s = synthesize(next, rest, covr_box, stats);
        push_all(&mut body, &s);
    } else {
        assert(kids@.subrange(j0 + 1, i as int) =~= kids@.skip(j0 + 1));
    }
    proof {
        lemma_rebuild_len(buf@, *hdr, path@, covr_box@);
        if replaced {
            let inner = spec_rebuild(buf@, kids@[j0], rest@, covr_box@).unwrap();
            lemma_box_bytes_shape(
                hdr.kind,
                hdr.header_len,
                pre + hd + spans(buf@, kids@.take(j0)) + inner.0 + spans(buf@, kids@.skip(j0 + 1)),
            );
        } else {
            let s = spec_synthesize(next, rest@, covr_box@);
            lemma_box_bytes_shape(hdr.kind, hdr.header_len, pre + hd + spans(buf@, kids@) + s.0);
        }
    }
    Ok(with_header(hdr.kind, hdr.header_len, &body))
}

/// Rebuild `moov` with `covr_box` (a complete, serialized `covr` box) as the
/// only cover item.
#[verifier::rlimit(80)]
pub fn replace_cover(moov: &[u8], covr_box: &[u8]) -> (r: Result<(Vec<u8>, RebuildStats), Mp4Error>)
    requires
        moov@.len() + covr_box@.len() + growth(3) + 16 <= u64::MAX,
    ensures
        match spec_replace_cover(moov@, covr_box@) {
            Ok(res) => r matches Ok((v, stats)) && {
                &&& v@ == res.0
                &&& stats.removed_covr == res.1
                &&& stats.created@ == res.2
            },
            Err(e) => r matches Err(e2) && e2 == e,
        },
{
    let _ = moov.len();
    let hdr = match moov_header(moov) {
        Ok(h) => h,
        Err(e) => {
            return Err(e);
        },
    };
    proof {
        lemma_moov_header_ok(moov@);
    }
    let mut stats = RebuildStats::default();
    let path = [udta(), meta(), ilst()];
    assert(path@ =~= covers_path());
    match rebuild(moov, &hdr, &path, covr_box, &mut stats) {
        Ok(out) => Ok((out, stats)),
        Err(e) => Err(e),
    }
}

} // verus!
