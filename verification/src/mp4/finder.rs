//! Locate boxes inside an in-memory `moov` buffer. Only the paths the
//! library cares about are walked; everything else stays opaque.
//!
//! Offsets in the returned headers are relative to the start of the buffer
//! (the first byte of the `moov` header is offset 0).

use vstd::prelude::*;

use super::be::{
    be32, be64, lemma_be32_window, lemma_u32_roundtrip, lemma_u64_roundtrip, read_u32, read_u64, splice,
    u32_bytes, u64_bytes, write_u32_at, write_u64_at,
};
use super::box_header::{
    children, kind_at, lemma_parse_ok, min, spec_children, spec_parse, BoxHeader, FourCc,
};
use super::error::Mp4Error;

verus! {

/// The `moov` box type.
#[verifier::allow_in_spec]
pub fn moov() -> FourCc
    returns
        FourCc([0x6d, 0x6f, 0x6f, 0x76]),
{
    FourCc([0x6d, 0x6f, 0x6f, 0x76])
}
/// The `mvex` box type.
#[verifier::allow_in_spec]
pub fn mvex() -> FourCc
    returns
        FourCc([0x6d, 0x76, 0x65, 0x78]),
{
    FourCc([0x6d, 0x76, 0x65, 0x78])
}
/// The `trak` box type.
#[verifier::allow_in_spec]
pub fn trak() -> FourCc
    returns
        FourCc([0x74, 0x72, 0x61, 0x6b]),
{
    FourCc([0x74, 0x72, 0x61, 0x6b])
}
/// The `mdia` box type.
#[verifier::allow_in_spec]
pub fn mdia() -> FourCc
    returns
        FourCc([0x6d, 0x64, 0x69, 0x61]),
{
    FourCc([0x6d, 0x64, 0x69, 0x61])
}
/// The `minf` box type.
#[verifier::allow_in_spec]
pub fn minf() -> FourCc
    returns
        FourCc([0x6d, 0x69, 0x6e, 0x66]),
{
    FourCc([0x6d, 0x69, 0x6e, 0x66])
}
/// The `stbl` box type.
#[verifier::allow_in_spec]
pub fn stbl() -> FourCc
    returns
        FourCc([0x73, 0x74, 0x62, 0x6c]),
{
    FourCc([0x73, 0x74, 0x62, 0x6c])
}
/// The `stco` box type.
#[verifier::allow_in_spec]
pub fn stco() -> FourCc
    returns
        FourCc([0x73, 0x74, 0x63, 0x6f]),
{
    FourCc([0x73, 0x74, 0x63, 0x6f])
}
/// The `co64` box type.
#[verifier::allow_in_spec]
pub fn co64() -> FourCc
    returns
        FourCc([0x63, 0x6f, 0x36, 0x34]),
{
    FourCc([0x63, 0x6f, 0x36, 0x34])
}
/// The `udta` box type.
#[verifier::allow_in_spec]
pub fn udta() -> FourCc
    returns
        FourCc([0x75, 0x64, 0x74, 0x61]),
{
    FourCc([0x75, 0x64, 0x74, 0x61])
}
/// The `meta` box type.
#[verifier::allow_in_spec]
pub fn meta() -> FourCc
    returns
        FourCc([0x6d, 0x65, 0x74, 0x61]),
{
    FourCc([0x6d, 0x65, 0x74, 0x61])
}
/// The `hdlr` box type.
#[verifier::allow_in_spec]
pub fn hdlr() -> FourCc
    returns
        FourCc([0x68, 0x64, 0x6c, 0x72]),
{
    FourCc([0x68, 0x64, 0x6c, 0x72])
}
/// The `ilst` box type.
#[verifier::allow_in_spec]
pub fn ilst() -> FourCc
    returns
        FourCc([0x69, 0x6c, 0x73, 0x74]),
{
    FourCc([0x69, 0x6c, 0x73, 0x74])
}
/// The `covr` box type.
#[verifier::allow_in_spec]
pub fn covr() -> FourCc
    returns
        FourCc([0x63, 0x6f, 0x76, 0x72]),
{
    FourCc([0x63, 0x6f, 0x76, 0x72])
}
/// The `free` box type.
#[verifier::allow_in_spec]
pub fn free() -> FourCc
    returns
        FourCc([0x66, 0x72, 0x65, 0x65]),
{
    FourCc([0x66, 0x72, 0x65, 0x65])
}
/// The `skip` box type.
#[verifier::allow_in_spec]
pub fn skip() -> FourCc
    returns
        FourCc([0x73, 0x6b, 0x69, 0x70]),
{
    FourCc([0x73, 0x6b, 0x69, 0x70])
}

/// The `mdat` box type.
#[verifier::allow_in_spec]
pub fn mdat() -> FourCc
    returns
        FourCc([0x6d, 0x64, 0x61, 0x74]),
{
    FourCc([0x6d, 0x64, 0x61, 0x74])
}

/// The `moof` box type.
#[verifier::allow_in_spec]
pub fn moof() -> FourCc
    returns
        FourCc([0x6d, 0x6f, 0x6f, 0x66]),
{
    FourCc([0x6d, 0x6f, 0x6f, 0x66])
}

/// The `sidx` box type.
#[verifier::allow_in_spec]
pub fn sidx() -> FourCc
    returns
        FourCc([0x73, 0x69, 0x64, 0x78]),
{
    FourCc([0x73, 0x69, 0x64, 0x78])
}

/// Length of the fixed fields between the header of `hdr` and its children:
/// 4 for an ISO `meta` FullBox, 0 for everything else, and 0 for a QuickTime
/// `meta` whose payload starts directly with an `hdlr` child.
pub open spec fn spec_prefix_len(buf: Seq<u8>, hdr: BoxHeader) -> int {
    if hdr.kind != meta() {
        0
    } else if hdr.payload() + 8 <= buf.len() && kind_at(buf, hdr.payload() + 4) == hdlr() {
        0
    } else {
        4
    }
}

/// Length of the fixed fields between a box header and its child boxes.
///
/// `meta` is a FullBox (4 bytes version+flags) in ISO MP4, but QuickTime
/// `.mov` files write it as a plain box. Sniff: a child box header is
/// `size(4) + type(4)`, so if the type `hdlr` appears 4 bytes into the
/// payload the child starts immediately and there is no version field.
pub fn child_prefix_len(buf: &[u8], hdr: &BoxHeader) -> (r: usize)
    requires
        hdr.offset + hdr.header_len <= u64::MAX,
    ensures
        r == spec_prefix_len(buf@, *hdr),
{
    if !hdr.kind.is(&meta()) {
        return 0;
    }
    let p = hdr.payload_offset();
    let n = buf.len() as u64;
    if p <= n && n - p >= 8 {
        let q = p as usize;
        let found = FourCc([buf[q + 4], buf[q + 5], buf[q + 6], buf[q + 7]]);
        if found.is(&hdlr()) {
            return 0;
        }
    }
    4
}

/// The children of container `hdr`, after its fixed prefix.
pub open spec fn spec_container_children(buf: Seq<u8>, hdr: BoxHeader) -> Result<
    Seq<BoxHeader>,
    Mp4Error,
> {
    spec_children(buf, hdr.payload() + spec_prefix_len(buf, hdr), hdr.end_pos())
}

/// Every header in a successful sibling scan is well formed, lies in order
/// within the scanned region and within the buffer, and the siblings sit
/// back to back from `pos` on.
pub proof fn lemma_children_ok(buf: Seq<u8>, pos: int, end: int)
    requires
        0 <= pos,
        buf.len() <= u64::MAX,
    ensures
        spec_children(buf, pos, end) matches Ok(s) ==> {
            &&& forall|i: int|
                0 <= i < s.len() ==> {
                    &&& (#[trigger] s[i]).wf()
                    &&& s[i].offset >= pos
                    &&& s[i].end_pos() <= end
                    &&& s[i].end_pos() <= buf.len()
                    &&& s[i].size >= 8
                }
            &&& s.len() > 0 ==> s[0].offset == pos
            &&& forall|i: int| 1 <= i < s.len() ==> #[trigger] s[i].offset == s[i - 1].end_pos()
            &&& s.len() <= buf.len()
            &&& ordered(s)
        },
    decreases end - pos,
{
    lemma_parse_ok(buf, pos, end);
    match spec_parse(buf, pos, end) {
        Ok(Some(h)) => {
            lemma_children_ok(buf, h.end_pos(), end);
            match spec_children(buf, h.end_pos(), end) {
                Ok(rest) => {
                    let s = seq![h] + rest;
                    assert forall|i: int| 1 <= i < s.len() implies #[trigger] s[i].offset
                        == s[i - 1].end_pos() by {
                        if i > 1 {
                            assert(s[i] == rest[i - 1]);
                            assert(s[i - 1] == rest[i - 2]);
                        } else {
                            assert(s[1] == rest[0]);
                        }
                    }
                    assert forall|i: int| 0 <= i < s.len() implies {
                        &&& (#[trigger] s[i]).wf()
                        &&& s[i].offset >= pos
                        &&& s[i].end_pos() <= end
                        &&& s[i].end_pos() <= buf.len()
                        &&& s[i].size >= 8
                    } by {
                        if i > 0 {
                            assert(s[i] == rest[i - 1]);
                        }
                    }
                    if rest.len() > 0 {
                        assert(rest.len() <= buf.len() - h.end_pos()) by {
                            lemma_children_len(buf, h.end_pos(), end);
                        }
                    }
                    assert forall|i: int, j: int| #![trigger s[i], s[j]] 0 <= i < j < s.len() implies s[i].end_pos()
                        <= s[j].offset by {
                        assert(s[j] == rest[j - 1]);
                        if i > 0 {
                            assert(s[i] == rest[i - 1]);
                        }
                    }
                },
                Err(_) => {},
            }
        },
        _ => {},
    }
}

/// Boxes that follow one another without overlapping.
pub open spec fn ordered(s: Seq<BoxHeader>) -> bool {
    forall|i: int, j: int| #![trigger s[i], s[j]] 0 <= i < j < s.len() ==> s[i].end_pos() <= s[j].offset
}

/// Boxes that all lie within `[lo, hi)`.
pub open spec fn within(s: Seq<BoxHeader>, lo: int, hi: int) -> bool {
    forall|i: int|
        0 <= i < s.len() ==> lo <= (#[trigger] s[i]).offset && s[i].offset <= s[i].end_pos()
            && s[i].end_pos() <= hi
}

/// Total size of the boxes `ks`.
pub open spec fn sum_sizes(ks: Seq<BoxHeader>) -> int
    decreases ks.len(),
{
    if ks.len() == 0 {
        0
    } else {
        sum_sizes(ks.drop_last()) + ks.last().size
    }
}

/// Sizes add up over a concatenation.
pub proof fn lemma_sum_sizes_concat(a: Seq<BoxHeader>, b: Seq<BoxHeader>)
    ensures
        sum_sizes(a + b) == sum_sizes(a) + sum_sizes(b),
    decreases b.len(),
{
    if b.len() == 0 {
        assert(a + b =~= a);
    } else {
        assert((a + b).drop_last() =~= a + b.drop_last());
        lemma_sum_sizes_concat(a, b.drop_last());
    }
}

/// Non-overlapping boxes within `[lo, hi)` are no larger together than
/// the region.
pub proof fn lemma_sum_sizes_placed(s: Seq<BoxHeader>, lo: int, hi: int)
    requires
        ordered(s),
        within(s, lo, hi),
    ensures
        sum_sizes(s) <= if hi >= lo {
            hi - lo
        } else {
            0
        },
        s.len() > 0 ==> sum_sizes(s) <= s.last().end_pos() - lo,
    decreases s.len(),
{
    if s.len() > 0 {
        let d = s.drop_last();
        let last = s.last();
        assert(last == s[s.len() - 1]);
        assert(ordered(d)) by {
            assert forall|i: int, j: int| #![trigger d[i], d[j]] 0 <= i < j < d.len() implies d[i].end_pos()
                <= d[j].offset by {
                assert(d[i] == s[i]);
                assert(d[j] == s[j]);
            }
        }
        assert(within(d, lo, last.offset as int)) by {
            assert forall|i: int| 0 <= i < d.len() implies lo <= (#[trigger] d[i]).offset
                && d[i].offset <= d[i].end_pos() && d[i].end_pos() <= last.offset by {
                assert(d[i] == s[i]);
            }
        }
        lemma_sum_sizes_placed(d, lo, last.offset as int);
        if d.len() > 0 {
            assert(d.last() == s[s.len() - 2]);
        }
    }
}

/// The boxes a walk gathers do not overlap and lie inside the box the walk
/// starts from.
pub proof fn lemma_descend_placed(buf: Seq<u8>, hdr: BoxHeader, path: Seq<FourCc>, what: Gather)
    requires
        hdr.wf(),
        buf.len() <= u64::MAX,
    ensures
        descend(buf, hdr, path, what) matches Ok(s) ==> ordered(s) && within(
            s,
            hdr.offset as int,
            hdr.end_pos(),
        ),
    decreases path.len() * 2 + 1, 0nat,
{
    lemma_container_children_ok(buf, hdr);
    lemma_children_ok(buf, hdr.payload() + spec_prefix_len(buf, hdr), hdr.end_pos());
    match spec_container_children(buf, hdr) {
        Ok(kids) => {
            assert(within(kids, hdr.offset as int, hdr.end_pos()));
            if path.len() == 0 {
                match what {
                    Gather::ChunkTables => lemma_tables_in_placed(
                        buf,
                        kids,
                        hdr.offset as int,
                        hdr.end_pos(),
                    ),
                    Gather::CoverItems => lemma_only_kind_placed(
                        kids,
                        covr(),
                        hdr.offset as int,
                        hdr.end_pos(),
                    ),
                }
            } else {
                lemma_descend_list_placed(buf, kids, path, what, hdr.offset as int, hdr.end_pos());
            }
        },
        Err(_) => {},
    }
}

/// [`lemma_descend_placed`] over a list of siblings lying in `[lo, hi)`.
pub proof fn lemma_descend_list_placed(
    buf: Seq<u8>,
    kids: Seq<BoxHeader>,
    path: Seq<FourCc>,
    what: Gather,
    lo: int,
    hi: int,
)
    requires
        forall|i: int| 0 <= i < kids.len() ==> (#[trigger] kids[i]).wf(),
        ordered(kids),
        within(kids, lo, hi),
        buf.len() <= u64::MAX,
    ensures
        descend_list(buf, kids, path, what) matches Ok(s) ==> ordered(s) && within(s, lo, hi),
    decreases path.len() * 2, kids.len(),
{
    if kids.len() > 0 && path.len() > 0 {
        let k = kids[0];
        let rest = kids.drop_first();
        assert(ordered(rest)) by {
            assert forall|i: int, j: int| #![trigger rest[i], rest[j]] 0 <= i < j < rest.len() implies rest[i].end_pos()
                <= rest[j].offset by {
                assert(rest[i] == kids[i + 1]);
                assert(rest[j] == kids[j + 1]);
            }
        }
        assert(within(rest, k.end_pos(), hi)) by {
            assert forall|i: int| 0 <= i < rest.len() implies k.end_pos() <= (
            #[trigger] rest[i]).offset && rest[i].offset <= rest[i].end_pos() && rest[i].end_pos()
                <= hi by {
                assert(rest[i] == kids[i + 1]);
            }
        }
        assert forall|i: int| 0 <= i < rest.len() implies (#[trigger] rest[i]).wf() by {
            assert(rest[i] == kids[i + 1]);
        }
        lemma_descend_list_placed(buf, rest, path, what, k.end_pos(), hi);
        if k.kind == path[0] {
            lemma_descend_placed(buf, k, path.drop_first(), what);
        }
        match descend_list(buf, kids, path, what) {
            Ok(s) => {
                let a = if k.kind == path[0] {
                    descend(buf, k, path.drop_first(), what).unwrap()
                } else {
                    Seq::empty()
                };
                let b = descend_list(buf, rest, path, what).unwrap();
                assert(s == a + b);
                assert(within(a, k.offset as int, k.end_pos()));
                assert forall|i: int, j: int| #![trigger s[i], s[j]] 0 <= i < j < s.len() implies s[i].end_pos()
                    <= s[j].offset by {
                    if j < a.len() {
                        assert(s[i] == a[i]);
                        assert(s[j] == a[j]);
                    } else if i >= a.len() {
                        assert(s[i] == b[i - a.len()]);
                        assert(s[j] == b[j - a.len()]);
                    } else {
                        assert(s[i] == a[i]);
                        assert(s[j] == b[j - a.len()]);
                    }
                }
                assert forall|i: int| 0 <= i < s.len() implies lo <= (#[trigger] s[i]).offset
                    && s[i].offset <= s[i].end_pos() && s[i].end_pos() <= hi by {
                    if i < a.len() {
                        assert(s[i] == a[i]);
                    } else {
                        assert(s[i] == b[i - a.len()]);
                    }
                }
            },
            Err(_) => {},
        }
    }
}

/// Boxes kept by [`tables_in`] keep their order and place.
pub proof fn lemma_tables_in_placed(buf: Seq<u8>, kids: Seq<BoxHeader>, lo: int, hi: int)
    requires
        ordered(kids),
        within(kids, lo, hi),
    ensures
        tables_in(buf, kids) matches Ok(s) ==> ordered(s) && within(s, lo, hi),
    decreases kids.len(),
{
    if kids.len() > 0 {
        let k = kids[0];
        let rest = kids.drop_first();
        assert(ordered(rest)) by {
            assert forall|i: int, j: int| #![trigger rest[i], rest[j]] 0 <= i < j < rest.len() implies rest[i].end_pos()
                <= rest[j].offset by {
                assert(rest[i] == kids[i + 1]);
                assert(rest[j] == kids[j + 1]);
            }
        }
        assert(within(rest, k.end_pos(), hi)) by {
            assert forall|i: int| 0 <= i < rest.len() implies k.end_pos() <= (
            #[trigger] rest[i]).offset && rest[i].offset <= rest[i].end_pos() && rest[i].end_pos()
                <= hi by {
                assert(rest[i] == kids[i + 1]);
            }
        }
        lemma_tables_in_placed(buf, rest, k.end_pos(), hi);
        match tables_in(buf, kids) {
            Ok(s) => {
                if k.kind == stco() || k.kind == co64() {
                    let b = tables_in(buf, rest).unwrap();
                    assert(s == seq![k] + b);
                    assert forall|i: int, j: int| #![trigger s[i], s[j]] 0 <= i < j < s.len() implies s[i].end_pos()
                        <= s[j].offset by {
                        assert(s[j] == b[j - 1]);
                        if i > 0 {
                            assert(s[i] == b[i - 1]);
                        }
                    }
                    assert forall|i: int| 0 <= i < s.len() implies lo <= (#[trigger] s[i]).offset
                        && s[i].offset <= s[i].end_pos() && s[i].end_pos() <= hi by {
                        if i > 0 {
                            assert(s[i] == b[i - 1]);
                        }
                    }
                }
            },
            Err(_) => {},
        }
    }
}

/// Boxes kept by [`only_kind`] keep their order and place.
pub proof fn lemma_only_kind_placed(kids: Seq<BoxHeader>, kind: FourCc, lo: int, hi: int)
    requires
        ordered(kids),
        within(kids, lo, hi),
    ensures
        ordered(only_kind(kids, kind)),
        within(only_kind(kids, kind), lo, hi),
    decreases kids.len(),
{
    if kids.len() > 0 {
        let k = kids[0];
        let rest = kids.drop_first();
        assert(ordered(rest)) by {
            assert forall|i: int, j: int| #![trigger rest[i], rest[j]] 0 <= i < j < rest.len() implies rest[i].end_pos()
                <= rest[j].offset by {
                assert(rest[i] == kids[i + 1]);
                assert(rest[j] == kids[j + 1]);
            }
        }
        assert(within(rest, k.end_pos(), hi)) by {
            assert forall|i: int| 0 <= i < rest.len() implies k.end_pos() <= (
            #[trigger] rest[i]).offset && rest[i].offset <= rest[i].end_pos() && rest[i].end_pos()
                <= hi by {
                assert(rest[i] == kids[i + 1]);
            }
        }
        lemma_only_kind_placed(rest, kind, k.end_pos(), hi);
        let s = only_kind(kids, kind);
        if k.kind == kind {
            let b = only_kind(rest, kind);
            assert forall|i: int, j: int| #![trigger s[i], s[j]] 0 <= i < j < s.len() implies s[i].end_pos()
                <= s[j].offset by {
                assert(s[j] == b[j - 1]);
                if i > 0 {
                    assert(s[i] == b[i - 1]);
                }
            }
            assert forall|i: int| 0 <= i < s.len() implies lo <= (#[trigger] s[i]).offset
                && s[i].offset <= s[i].end_pos() && s[i].end_pos() <= hi by {
                if i > 0 {
                    assert(s[i] == b[i - 1]);
                }
            }
        }
    }
}

/// Total number of entries declared by the tables `ts`.
pub open spec fn sum_counts(ts: Seq<ChunkTable>) -> int
    decreases ts.len(),
{
    if ts.len() == 0 {
        0
    } else {
        sum_counts(ts.drop_last()) + ts.last().count
    }
}

/// Tables made from boxes at least four bytes per entry larger hold no more
/// entries together than a quarter of the boxes' total size.
pub proof fn lemma_sum_counts_bound(buf: Seq<u8>, hs: Seq<BoxHeader>)
    requires
        forall|i: int| 0 <= i < hs.len() ==> table_of(buf, #[trigger] hs[i]).count * 4 <= hs[i].size,
    ensures
        sum_counts(hs.map_values(|t: BoxHeader| table_of(buf, t))) * 4 <= sum_sizes(hs),
    decreases hs.len(),
{
    if hs.len() > 0 {
        let d = hs.drop_last();
        assert forall|i: int| 0 <= i < d.len() implies table_of(buf, #[trigger] d[i]).count * 4
            <= d[i].size by {
            assert(d[i] == hs[i]);
        }
        lemma_sum_counts_bound(buf, d);
        let ts = hs.map_values(|t: BoxHeader| table_of(buf, t));
        assert(ts.drop_last() =~= d.map_values(|t: BoxHeader| table_of(buf, t)));
        assert(hs.last() == hs[hs.len() - 1]);
    }
}

/// All the tables together declare at most a quarter of the buffer's length
/// in entries.
pub proof fn lemma_chunk_tables_total(buf: Seq<u8>)
    requires
        buf.len() <= u64::MAX,
    ensures
        spec_chunk_tables(buf) matches Ok(ts) ==> sum_counts(ts) * 4 <= buf.len(),
{
    lemma_moov_header_ok(buf);
    match spec_moov_header(buf) {
        Ok(moov) => {
            lemma_descend_ok(buf, moov, tables_path(), Gather::ChunkTables);
            lemma_descend_placed(buf, moov, tables_path(), Gather::ChunkTables);
            match descend(buf, moov, tables_path(), Gather::ChunkTables) {
                Ok(hs) => {
                    assert forall|i: int| 0 <= i < hs.len() implies table_of(
                        buf,
                        #[trigger] hs[i],
                    ).count * 4 <= hs[i].size by {
                        assert(gathered_ok(buf, hs[i], Gather::ChunkTables));
                    }
                    lemma_sum_counts_bound(buf, hs);
                    lemma_sum_sizes_placed(hs, 0, buf.len() as int);
                },
                Err(_) => {},
            }
        },
        Err(_) => {},
    }
}

/// A sibling scan never yields more headers than there are bytes left.
pub proof fn lemma_children_len(buf: Seq<u8>, pos: int, end: int)
    requires
        0 <= pos,
        buf.len() <= u64::MAX,
    ensures
        spec_children(buf, pos, end) matches Ok(s) ==> s.len() <= if pos <= buf.len() {
            buf.len() - pos
        } else {
            0
        },
    decreases end - pos,
{
    lemma_parse_ok(buf, pos, end);
    match spec_parse(buf, pos, end) {
        Ok(Some(h)) => {
            lemma_children_len(buf, h.end_pos(), end);
        },
        _ => {},
    }
}

/// Scanning up to `end` or up to the end of the buffer is the same scan
/// when `end` lies past the buffer.
pub proof fn lemma_children_clamp(buf: Seq<u8>, pos: int, end: int)
    requires
        0 <= pos,
        buf.len() <= u64::MAX,
    ensures
        spec_children(buf, pos, end) == spec_children(buf, pos, min(end, buf.len() as int)),
    decreases end - pos,
{
    lemma_parse_ok(buf, pos, end);
    lemma_parse_ok(buf, pos, min(end, buf.len() as int));
    assert(spec_parse(buf, pos, end) == spec_parse(buf, pos, min(end, buf.len() as int)));
    match spec_parse(buf, pos, end) {
        Ok(Some(h)) => {
            lemma_children_clamp(buf, h.end_pos(), end);
        },
        _ => {},
    }
}

/// Child boxes of a container, skipping any FullBox prefix.
pub fn container_children(buf: &[u8], hdr: &BoxHeader) -> (r: Result<Vec<BoxHeader>, Mp4Error>)
    requires
        hdr.offset + hdr.header_len <= u64::MAX,
        hdr.offset + hdr.size <= u64::MAX,
    ensures
        match r {
            Ok(v) => spec_container_children(buf@, *hdr) == Ok::<_, Mp4Error>(v@),
            Err(e) => spec_container_children(buf@, *hdr) == Err::<Seq<BoxHeader>, _>(e),
        },
{
    let p = hdr.payload_offset();
    let prefix = child_prefix_len(buf, hdr);
    let e = hdr.end();
    let n = buf.len();
    let end = if e < n as u64 {
        e as usize
    } else {
        n
    };
    let start = if p >= n as u64 || (n as u64 - p) < prefix as u64 {
        n
    } else {
        p as usize + prefix
    };
    proof {
        let s = hdr.payload() + spec_prefix_len(buf@, *hdr);
        lemma_children_clamp(buf@, s, hdr.end_pos());
        lemma_children_clamp(buf@, start as int, end as int);
        assert(min(end as int, n as int) == min(hdr.end_pos(), n as int));
        if start == n {
            lemma_parse_ok(buf@, s, min(hdr.end_pos(), n as int));
            lemma_parse_ok(buf@, n as int, min(hdr.end_pos(), n as int));
            assert(spec_children(buf@, s, min(hdr.end_pos(), n as int)) == Ok::<
                Seq<BoxHeader>,
                Mp4Error,
            >(Seq::empty()));
        }
    }
    children(buf, start, end)
}

/// The `moov` header at the start of a buffer that is exactly one `moov`.
pub open spec fn spec_moov_header(buf: Seq<u8>) -> Result<BoxHeader, Mp4Error> {
    match spec_parse(buf, 0, buf.len() as int) {
        Err(e) => Err(e),
        Ok(None) => Err(Mp4Error::EmptyMoov),
        Ok(Some(h)) => if h.kind == moov() && h.end_pos() == buf.len() {
            Ok(h)
        } else {
            Err(Mp4Error::NotMoov { kind: h.kind, size: h.size })
        },
    }
}

/// A `moov` header found by `moov_header` is well formed and spans the
/// whole buffer.
pub proof fn lemma_moov_header_ok(buf: Seq<u8>)
    requires
        buf.len() <= u64::MAX,
    ensures
        spec_moov_header(buf) matches Ok(h) ==> {
            &&& h.wf()
            &&& h.offset == 0
            &&& h.size == buf.len()
            &&& h.kind == moov()
        },
{
    lemma_parse_ok(buf, 0, buf.len() as int);
}

/// Parse the `moov` header at the start of `buf`.
pub fn moov_header(buf: &[u8]) -> (r: Result<BoxHeader, Mp4Error>)
    ensures
        r == spec_moov_header(buf@),
{
    let _ = buf.len();
    proof {
        lemma_parse_ok(buf@, 0, buf@.len() as int);
    }
    match BoxHeader::parse(buf, 0, buf.len()) {
        Err(e) => Err(e),
        Ok(None) => Err(Mp4Error::EmptyMoov),
        Ok(Some(h)) => {
            if h.kind.is(&moov()) && h.end() == buf.len() as u64 {
                Ok(h)
            } else {
                Err(Mp4Error::NotMoov { kind: h.kind, size: h.size })
            }
        },
    }
}

/// A `stco` / `co64` table: where its entries live and how many there are.
#[derive(Debug, Clone, Copy)]
pub struct ChunkTable {
    pub kind: FourCc,
    /// Buffer offset of the first entry.
    pub entries_offset: usize,
    pub count: usize,
}

impl ChunkTable {
    /// Bytes per entry: 8 for `co64`, 4 otherwise.
    pub open spec fn width(self) -> int {
        if self.kind == co64() {
            8
        } else {
            4
        }
    }

    /// Buffer offset of entry `i`.
    pub open spec fn entry_pos(self, i: int) -> int {
        if self.kind == co64() {
            self.entries_offset + 8 * i
        } else {
            self.entries_offset + 4 * i
        }
    }

    /// Entry `i` as stored in `buf`.
    pub open spec fn entry(self, buf: Seq<u8>, i: int) -> int {
        if self.kind == co64() {
            be64(buf, self.entry_pos(i))
        } else {
            be32(buf, self.entry_pos(i))
        }
    }

    /// All `count` entries lie inside a buffer of length `len`.
    pub open spec fn fits(self, len: int) -> bool {
        self.entry_pos(self.count as int) <= len
    }

    pub fn entry_len(&self) -> (r: usize)
        ensures
            r == self.width(),
    {
        if self.kind.is(&co64()) {
            8
        } else {
            4
        }
    }

    /// Read entry `i` as an absolute file offset.
    pub fn get(&self, buf: &[u8], i: usize) -> (r: u64)
        requires
            self.entry_pos(i as int) + self.width() <= buf@.len(),
        ensures
            r == self.entry(buf@, i as int),
    {
        let _ = buf.len();
        if self.kind.is(&co64()) {
            read_u64(buf, self.entries_offset + 8 * i)
        } else {
            read_u32(buf, self.entries_offset + 4 * i) as u64
        }
    }

    /// Write entry `i`. Fails, leaving `buf` unchanged, if a `stco` entry
    /// would overflow 32 bits.
    pub fn set(&self, buf: &mut Vec<u8>, i: usize, v: u64) -> (r: Result<(), Mp4Error>)
        requires
            self.entry_pos(i as int) + self.width() <= old(buf)@.len(),
        ensures
            self.kind == co64() ==> r is Ok && final(buf)@ == splice(
                old(buf)@,
                self.entry_pos(i as int),
                u64_bytes(v as int),
            ),
            self.kind != co64() && v > u32::MAX ==> r == Err::<(), _>(
                Mp4Error::StcoOverflow { value: v },
            ) && final(buf)@ == old(buf)@,
            self.kind != co64() && v <= u32::MAX ==> r is Ok && final(buf)@ == splice(
                old(buf)@,
                self.entry_pos(i as int),
                u32_bytes(v as int),
            ),
    {
        let _ = buf.len();
        if self.kind.is(&co64()) {
            write_u64_at(buf, self.entries_offset + 8 * i, v);
        } else {
            if v > u32::MAX as u64 {
                return Err(Mp4Error::StcoOverflow { value: v });
            }
            write_u32_at(buf, self.entries_offset + 4 * i, v as u32);
        }
        Ok(())
    }
}

/// Whether a `stco` / `co64` box is large enough for its version, flags,
/// count and every entry it declares.
pub open spec fn table_check(buf: Seq<u8>, t: BoxHeader) -> Result<(), Mp4Error> {
    let p = t.payload();
    if t.end_pos() - p < 8 {
        Err(Mp4Error::TruncatedTable { kind: t.kind })
    } else {
        let count = be32(buf, p + 4);
        let need = if t.kind == co64() {
            count * 8
        } else {
            count * 4
        };
        if p + 8 + need > t.end_pos() {
            Err(Mp4Error::TableTooSmall { kind: t.kind, count: count as usize })
        } else {
            Ok(())
        }
    }
}

/// The table described by a checked `stco` / `co64` box.
pub open spec fn table_of(buf: Seq<u8>, t: BoxHeader) -> ChunkTable {
    ChunkTable {
        kind: t.kind,
        entries_offset: (t.payload() + 8) as usize,
        count: be32(buf, t.payload() + 4) as usize,
    }
}

/// The `stco` / `co64` boxes among `kids`, in order, each checked; the
/// first failed check is the result.
pub open spec fn tables_in(buf: Seq<u8>, kids: Seq<BoxHeader>) -> Result<Seq<BoxHeader>, Mp4Error>
    decreases kids.len(),
{
    if kids.len() == 0 {
        Ok(Seq::empty())
    } else {
        let k = kids[0];
        if k.kind != stco() && k.kind != co64() {
            tables_in(buf, kids.drop_first())
        } else {
            match table_check(buf, k) {
                Err(e) => Err(e),
                Ok(_) => match tables_in(buf, kids.drop_first()) {
                    Err(e) => Err(e),
                    Ok(rest) => Ok(seq![k] + rest),
                },
            }
        }
    }
}

/// The headers among `kids` of type `kind`, in order.
pub open spec fn only_kind(kids: Seq<BoxHeader>, kind: FourCc) -> Seq<BoxHeader>
    decreases kids.len(),
{
    if kids.len() == 0 {
        Seq::empty()
    } else if kids[0].kind == kind {
        seq![kids[0]] + only_kind(kids.drop_first(), kind)
    } else {
        only_kind(kids.drop_first(), kind)
    }
}

/// What a walk collects from the boxes at the end of its path.
#[derive(Debug, Clone, Copy, PartialEq, Eq)]
pub enum Gather {
    /// Checked `stco` / `co64` children of each `stbl`.
    ChunkTables,
    /// `covr` children of each `ilst`.
    CoverItems,
}

/// What one box at the end of a walk contributes.
pub open spec fn gather_at(buf: Seq<u8>, hdr: BoxHeader, what: Gather) -> Result<
    Seq<BoxHeader>,
    Mp4Error,
> {
    match spec_container_children(buf, hdr) {
        Err(e) => Err(e),
        Ok(kids) => match what {
            Gather::ChunkTables => tables_in(buf, kids),
            Gather::CoverItems => Ok(only_kind(kids, covr())),
        },
    }
}

/// `Ok(a + b)` when both succeed; otherwise the first error.
pub open spec fn then_append(
    first: Result<Seq<BoxHeader>, Mp4Error>,
    second: Result<Seq<BoxHeader>, Mp4Error>,
) -> Result<Seq<BoxHeader>, Mp4Error> {
    match first {
        Err(e) => Err(e),
        Ok(a) => match second {
            Err(e) => Err(e),
            Ok(b) => Ok(a + b),
        },
    }
}

/// Walk from `hdr` down every chain of children whose types follow `path`,
/// depth first in document order, gathering at each box reached at the end
/// of the path. The first error met is the result.
pub open spec fn descend(buf: Seq<u8>, hdr: BoxHeader, path: Seq<FourCc>, what: Gather) -> Result<
    Seq<BoxHeader>,
    Mp4Error,
>
    decreases path.len() * 2 + 1, 0nat,
{
    if path.len() == 0 {
        gather_at(buf, hdr, what)
    } else {
        match spec_container_children(buf, hdr) {
            Err(e) => Err(e),
            Ok(kids) => descend_list(buf, kids, path, what),
        }
    }
}

/// [`descend`] applied to each of `kids` whose type is `path[0]`.
pub open spec fn descend_list(
    buf: Seq<u8>,
    kids: Seq<BoxHeader>,
    path: Seq<FourCc>,
    what: Gather,
) -> Result<Seq<BoxHeader>, Mp4Error>
    decreases path.len() * 2, kids.len(),
{
    if kids.len() == 0 || path.len() == 0 {
        Ok(Seq::empty())
    } else {
        let here = if kids[0].kind == path[0] {
            descend(buf, kids[0], path.drop_first(), what)
        } else {
            Ok(Seq::empty())
        };
        then_append(here, descend_list(buf, kids.drop_first(), path, what))
    }
}

/// Every header a walk gathers is a well-formed box inside the buffer, and
/// for chunk tables each one passed [`table_check`] and is a table box.
pub proof fn lemma_descend_ok(buf: Seq<u8>, hdr: BoxHeader, path: Seq<FourCc>, what: Gather)
    requires
        hdr.wf(),
        buf.len() <= u64::MAX,
    ensures
        descend(buf, hdr, path, what) matches Ok(s) ==> forall|i: int|
            0 <= i < s.len() ==> gathered_ok(buf, #[trigger] s[i], what),
    decreases path.len() * 2 + 1, 0nat,
{
    if path.len() == 0 {
        lemma_gather_ok(buf, hdr, what);
    } else {
        lemma_container_children_ok(buf, hdr);
        match spec_container_children(buf, hdr) {
            Ok(kids) => {
                lemma_descend_list_ok(buf, kids, path, what);
            },
            Err(_) => {},
        }
    }
}

/// [`lemma_descend_ok`] over a list of siblings.
pub proof fn lemma_descend_list_ok(
    buf: Seq<u8>,
    kids: Seq<BoxHeader>,
    path: Seq<FourCc>,
    what: Gather,
)
    requires
        forall|i: int| 0 <= i < kids.len() ==> (#[trigger] kids[i]).wf(),
        buf.len() <= u64::MAX,
    ensures
        descend_list(buf, kids, path, what) matches Ok(s) ==> forall|i: int|
            0 <= i < s.len() ==> gathered_ok(buf, #[trigger] s[i], what),
    decreases path.len() * 2, kids.len(),
{
    if kids.len() > 0 && path.len() > 0 {
        if kids[0].kind == path[0] {
            lemma_descend_ok(buf, kids[0], path.drop_first(), what);
        }
        lemma_descend_list_ok(buf, kids.drop_first(), path, what);
        match descend_list(buf, kids, path, what) {
            Ok(s) => {
                let here = if kids[0].kind == path[0] {
                    descend(buf, kids[0], path.drop_first(), what)
                } else {
                    Ok(Seq::empty())
                };
                let a = here.unwrap();
                let b = descend_list(buf, kids.drop_first(), path, what).unwrap();
                assert(s == a + b);
                assert forall|i: int| 0 <= i < s.len() implies gathered_ok(
                    buf,
                    #[trigger] s[i],
                    what,
                ) by {
                    if i < a.len() {
                        assert(s[i] == a[i]);
                    } else {
                        assert(s[i] == b[i - a.len()]);
                    }
                }
            },
            Err(_) => {},
        }
    }
}

/// What holds of each header a walk gathers.
pub open spec fn gathered_ok(buf: Seq<u8>, h: BoxHeader, what: Gather) -> bool {
    &&& h.wf()
    &&& h.end_pos() <= buf.len()
    &&& what == Gather::ChunkTables ==> table_check(buf, h) is Ok && (h.kind == stco() || h.kind
        == co64())
    &&& what == Gather::CoverItems ==> h.kind == covr()
}

/// Children of a container are well formed and inside the buffer.
pub proof fn lemma_container_children_ok(buf: Seq<u8>, hdr: BoxHeader)
    requires
        hdr.wf(),
        buf.len() <= u64::MAX,
    ensures
        spec_container_children(buf, hdr) matches Ok(s) ==> forall|i: int|
            0 <= i < s.len() ==> {
                &&& (#[trigger] s[i]).wf()
                &&& s[i].end_pos() <= buf.len()
                &&& s[i].end_pos() <= hdr.end_pos()
                &&& s[i].offset >= hdr.payload()
            },
{
    lemma_children_ok(buf, hdr.payload() + spec_prefix_len(buf, hdr), hdr.end_pos());
}

/// [`gathered_ok`] for one box at the end of a walk.
pub proof fn lemma_gather_ok(buf: Seq<u8>, hdr: BoxHeader, what: Gather)
    requires
        hdr.wf(),
        buf.len() <= u64::MAX,
    ensures
        gather_at(buf, hdr, what) matches Ok(s) ==> forall|i: int|
            0 <= i < s.len() ==> gathered_ok(buf, #[trigger] s[i], what),
{
    lemma_container_children_ok(buf, hdr);
    match spec_container_children(buf, hdr) {
        Ok(kids) => {
            match what {
                Gather::ChunkTables => lemma_tables_in_ok(buf, kids),
                Gather::CoverItems => lemma_only_kind_ok(kids, covr()),
            }
        },
        Err(_) => {},
    }
}

/// Boxes kept by [`tables_in`] are checked table boxes taken from `kids`.
pub proof fn lemma_tables_in_ok(buf: Seq<u8>, kids: Seq<BoxHeader>)
    ensures
        tables_in(buf, kids) matches Ok(s) ==> forall|i: int|
            0 <= i < s.len() ==> {
                &&& table_check(buf, #[trigger] s[i]) is Ok
                &&& (s[i].kind == stco() || s[i].kind == co64())
                &&& kids.contains(s[i])
            },
    decreases kids.len(),
{
    if kids.len() > 0 {
        lemma_tables_in_ok(buf, kids.drop_first());
        match tables_in(buf, kids) {
            Ok(s) => {
                assert forall|i: int| 0 <= i < s.len() implies {
                    &&& table_check(buf, #[trigger] s[i]) is Ok
                    &&& (s[i].kind == stco() || s[i].kind == co64())
                    &&& kids.contains(s[i])
                } by {
                    let rest = kids.drop_first();
                    if kids[0].kind != stco() && kids[0].kind != co64() {
                        assert(rest.contains(s[i]));
                        let j = choose|j: int| 0 <= j < rest.len() && rest[j] == s[i];
                        assert(kids[j + 1] == s[i]);
                    } else if i > 0 {
                        let r = tables_in(buf, rest).unwrap();
                        assert(s[i] == r[i - 1]);
                        assert(rest.contains(s[i]));
                        let j = choose|j: int| 0 <= j < rest.len() && rest[j] == s[i];
                        assert(kids[j + 1] == s[i]);
                    } else {
                        assert(kids[0] == s[i]);
                    }
                }
            },
            Err(_) => {},
        }
    }
}

/// [`only_kind`] keeps headers of `kids` of type `kind` only.
pub proof fn lemma_only_kind_ok(kids: Seq<BoxHeader>, kind: FourCc)
    ensures
        forall|i: int|
            0 <= i < only_kind(kids, kind).len() ==> {
                &&& (#[trigger] only_kind(kids, kind)[i]).kind == kind
                &&& kids.contains(only_kind(kids, kind)[i])
            },
        only_kind(kids, kind).len() <= kids.len(),
    decreases kids.len(),
{
    if kids.len() > 0 {
        let rest = kids.drop_first();
        lemma_only_kind_ok(rest, kind);
        let s = only_kind(kids, kind);
        assert forall|i: int| 0 <= i < s.len() implies {
            &&& (#[trigger] s[i]).kind == kind
            &&& kids.contains(s[i])
        } by {
            let r = only_kind(rest, kind);
            if kids[0].kind == kind {
                if i == 0 {
                    assert(kids[0] == s[i]);
                } else {
                    assert(s[i] == r[i - 1]);
                    let j = choose|j: int| 0 <= j < rest.len() && rest[j] == s[i];
                    assert(kids[j + 1] == s[i]);
                }
            } else {
                assert(s[i] == r[i]);
                let j = choose|j: int| 0 <= j < rest.len() && rest[j] == s[i];
                assert(kids[j + 1] == s[i]);
            }
        }
    }
}

/// Gather from one box at the end of a walk.
fn gather(buf: &[u8], hdr: &BoxHeader, what: Gather, out: &mut Vec<BoxHeader>) -> (r: Result<
    (),
    Mp4Error,
>)
    requires
        hdr.wf(),
    ensures
        match gather_at(buf@, *hdr, what) {
            Ok(s) => r is Ok && final(out)@ == old(out)@ + s,
            Err(e) => r == Err::<(), _>(e),
        },
{
    let _ = buf.len();
    let kids = match container_children(buf, hdr) {
        Ok(k) => k,
        Err(e) => {
            return Err(e);
        },
    };
    proof {
        lemma_container_children_ok(buf@, *hdr);
    }
    let ghost start = out@;
    let mut i: usize = 0;
    proof {
        assert(out@.skip(start.len() as int) =~= Seq::<BoxHeader>::empty());
        assert(kids@.skip(0) =~= kids@);
        assert(out@.subrange(0, start.len() as int) =~= start);
    }
    while i < kids.len()
        invariant
            i <= kids@.len(),
            buf@.len() <= u64::MAX,
            buf@.len() <= usize::MAX,
            spec_container_children(buf@, *hdr) == Ok::<_, Mp4Error>(kids@),
            forall|j: int|
                0 <= j < kids@.len() ==> (#[trigger] kids@[j]).wf() && kids@[j].end_pos()
                    <= buf@.len(),
            what == Gather::ChunkTables ==> tables_in(buf@, kids@) == match tables_in(
                buf@,
                kids@.skip(i as int),
            ) {
                Ok(rest) => Ok(out@.skip(start.len() as int) + rest),
                Err(e) => Err(e),
            },
            what == Gather::CoverItems ==> only_kind(kids@, covr()) == out@.skip(
                start.len() as int,
            ) + only_kind(kids@.skip(i as int), covr()),
            out@.len() >= start.len(),
            out@.subrange(0, start.len() as int) == start,
        decreases kids@.len() - i,
    {
        let k = kids[i];
        let ghost before = out@;
        assert(kids@.skip(i as int).drop_first() =~= kids@.skip(i as int + 1));
        assert(kids@.skip(i as int)[0] == k);
        let is_table = k.kind.is(&stco()) || k.kind.is(&co64());
        match what {
            Gather::ChunkTables => {
                if is_table {
                    let p = k.payload_offset();
                    let end = k.end();
                    if end - p < 8 {
                        proof {
                            assert(tables_in(buf@, kids@.skip(i as int)) == Err::<
                                Seq<BoxHeader>,
                                _,
                            >(Mp4Error::TruncatedTable { kind: k.kind }));
                        }
                        return Err(Mp4Error::TruncatedTable { kind: k.kind });
                    }
                    assert(k.end_pos() <= buf@.len());
                    let count = read_u32(buf, (p + 4) as usize);
                    let need: u64 = if k.kind.is(&co64()) {
                        count as u64 * 8
                    } else {
                        count as u64 * 4
                    };
                    if need > end - p - 8 {
                        proof {
                            assert(table_check(buf@, k) == Err::<(), _>(
                                Mp4Error::TableTooSmall { kind: k.kind, count: count as usize },
                            ));
                            assert(tables_in(buf@, kids@.skip(i as int)) == Err::<
                                Seq<BoxHeader>,
                                _,
                            >(Mp4Error::TableTooSmall { kind: k.kind, count: count as usize }));
                        }
                        return Err(
                            Mp4Error::TableTooSmall { kind: k.kind, count: count as usize },
                        );
                    }
                    out.push(k);
                }
            },
            Gather::CoverItems => {
                if k.kind.is(&covr()) {
                    out.push(k);
                }
            },
        }
        proof {
            assert(out@.subrange(0, start.len() as int) =~= start);
            if (what == Gather::ChunkTables && is_table) || (what == Gather::CoverItems && k.kind
                == covr()) {
                assert(out@.skip(start.len() as int) =~= before.skip(start.len() as int)
                    + seq![k]);
            } else {
                assert(out@ == before);
            }
            if what == Gather::ChunkTables {
                match tables_in(buf@, kids@.skip(i as int + 1)) {
                    Ok(rest) => {
                        if is_table {
                            assert(before.skip(start.len() as int) + (seq![k] + rest)
                                =~= out@.skip(start.len() as int) + rest);
                        }
                    },
                    Err(_) => {},
                }
            } else {
                let rest = only_kind(kids@.skip(i as int + 1), covr());
                if k.kind == covr() {
                    assert(before.skip(start.len() as int) + (seq![k] + rest)
                        =~= out@.skip(start.len() as int) + rest);
                }
            }
        }
        i = i + 1;
    }
    proof {
        assert(kids@.skip(i as int) =~= Seq::<BoxHeader>::empty());
        assert(out@ =~= start + out@.skip(start.len() as int));
        assert(out@.skip(start.len() as int) + Seq::<BoxHeader>::empty() =~= out@.skip(
            start.len() as int,
        ));
    }
    Ok(())
}

/// Walk from `hdr` along `path`, appending what [`descend`] gathers.
fn walk(buf: &[u8], hdr: &BoxHeader, path: &[FourCc], what: Gather, out: &mut Vec<BoxHeader>) -> (r:
    Result<(), Mp4Error>)
    requires
        hdr.wf(),
    ensures
        match descend(buf@, *hdr, path@, what) {
            Ok(s) => r is Ok && final(out)@ == old(out)@ + s,
            Err(e) => r == Err::<(), _>(e),
        },
    decreases path@.len(),
{
    let _ = buf.len();
    if path.len() == 0 {
        return gather(buf, hdr, what, out);
    }
    let kids = match container_children(buf, hdr) {
        Ok(k) => k,
        Err(e) => {
            return Err(e);
        },
    };
    proof {
        lemma_container_children_ok(buf@, *hdr);
    }
    let next = path[0];
    let rest = vstd::slice::slice_subrange(path, 1, path.len());
    assert(rest@ =~= path@.drop_first());
    let ghost start = out@;
    let mut i: usize = 0;
    proof {
        assert(out@.skip(start.len() as int) =~= Seq::<BoxHeader>::empty());
        assert(kids@.skip(0) =~= kids@);
        assert(out@.subrange(0, start.len() as int) =~= start);
    }
    while i < kids.len()
        invariant
            i <= kids@.len(),
            path@.len() > 0,
            next == path@[0],
            rest@ == path@.drop_first(),
            buf@.len() <= u64::MAX,
            spec_container_children(buf@, *hdr) == Ok::<_, Mp4Error>(kids@),
            forall|j: int| 0 <= j < kids@.len() ==> (#[trigger] kids@[j]).wf(),
            descend_list(buf@, kids@, path@, what) == match descend_list(
                buf@,
                kids@.skip(i as int),
                path@,
                what,
            ) {
                Ok(more) => Ok(out@.skip(start.len() as int) + more),
                Err(e) => Err(e),
            },
            out@.len() >= start.len(),
            out@.subrange(0, start.len() as int) == start,
        decreases kids@.len() - i,
    {
        let k = kids[i];
        let ghost before = out@;
        assert(kids@.skip(i as int).drop_first() =~= kids@.skip(i as int + 1));
        assert(kids@.skip(i as int)[0] == k);
        if k.kind.is(&next) {
            match walk(buf, &k, rest, what, out) {
                Ok(()) => {},
                Err(e) => {
                    proof {
                        assert(descend(buf@, k, rest@, what) == Err::<Seq<BoxHeader>, _>(e));
                        assert(descend_list(buf@, kids@.skip(i as int), path@, what) == Err::<
                            Seq<BoxHeader>,
                            _,
                        >(e));
                    }
                    return Err(e);
                },
            }
        }
        proof {
            assert(out@.subrange(0, start.len() as int) =~= start) by {
                assert(out@.subrange(0, before.len() as int) == before);
            }
            match descend_list(buf@, kids@.skip(i as int + 1), path@, what) {
                Ok(more) => {
                    if k.kind == next {
                        let got = descend(buf@, k, rest@, what).unwrap();
                        assert(out@ == before + got);
                        assert(before.skip(start.len() as int) + (got + more) =~= out@.skip(
                            start.len() as int,
                        ) + more);
                    } else {
                        assert(before.skip(start.len() as int) + (Seq::<BoxHeader>::empty()
                            + more) =~= out@.skip(start.len() as int) + more);
                    }
                },
                Err(_) => {},
            }
        }
        i = i + 1;
    }
    proof {
        assert(kids@.skip(i as int) =~= Seq::<BoxHeader>::empty());
        assert(out@ =~= start + out@.skip(start.len() as int));
        assert(out@.skip(start.len() as int) + Seq::<BoxHeader>::empty() =~= out@.skip(
            start.len() as int,
        ));
    }
    Ok(())
}

/// The path from `moov` to the boxes holding chunk offset tables.
pub open spec fn tables_path() -> Seq<FourCc> {
    seq![trak(), mdia(), minf(), stbl()]
}

/// The path from `moov` to the box holding the cover items.
pub open spec fn covers_path() -> Seq<FourCc> {
    seq![udta(), meta(), ilst()]
}

/// All chunk offset tables under `moov/trak/mdia/minf/stbl`, in document
/// order, or the first error met on the way.
pub open spec fn spec_chunk_tables(buf: Seq<u8>) -> Result<Seq<ChunkTable>, Mp4Error> {
    match spec_moov_header(buf) {
        Err(e) => Err(e),
        Ok(moov) => match descend(buf, moov, tables_path(), Gather::ChunkTables) {
            Err(e) => Err(e),
            Ok(hs) => Ok(hs.map_values(|t: BoxHeader| table_of(buf, t))),
        },
    }
}

/// Every table in a successful result lies inside the buffer, holds a
/// 32-bit count, and is a `stco` or `co64` table.
pub proof fn lemma_chunk_tables_ok(buf: Seq<u8>)
    requires
        buf.len() <= u64::MAX,
    ensures
        spec_chunk_tables(buf) matches Ok(ts) ==> forall|i: int|
            0 <= i < ts.len() ==> {
                &&& (#[trigger] ts[i]).fits(buf.len() as int)
                &&& ts[i].count <= u32::MAX
                &&& (ts[i].kind == stco() || ts[i].kind == co64())
            },
{
    lemma_moov_header_ok(buf);
    match spec_moov_header(buf) {
        Ok(moov) => {
            lemma_descend_ok(buf, moov, tables_path(), Gather::ChunkTables);
            match descend(buf, moov, tables_path(), Gather::ChunkTables) {
                Ok(hs) => {
                    assert forall|i: int| 0 <= i < hs.len() implies {
                        &&& (#[trigger] table_of(buf, hs[i])).fits(buf.len() as int)
                        &&& table_of(buf, hs[i]).count <= u32::MAX
                    } by {
                        assert(gathered_ok(buf, hs[i], Gather::ChunkTables));
                    }
                },
                Err(_) => {},
            }
        },
        Err(_) => {},
    }
}

/// All chunk offset tables under `moov/trak/mdia/minf/stbl`.
pub fn chunk_tables(buf: &[u8]) -> (r: Result<Vec<ChunkTable>, Mp4Error>)
    ensures
        match r {
            Ok(v) => spec_chunk_tables(buf@) == Ok::<_, Mp4Error>(v@),
            Err(e) => spec_chunk_tables(buf@) == Err::<Seq<ChunkTable>, _>(e),
        },
{
    let _ = buf.len();
    let moov = match moov_header(buf) {
        Ok(m) => m,
        Err(e) => {
            return Err(e);
        },
    };
    proof {
        lemma_moov_header_ok(buf@);
    }
    let path = [trak(), mdia(), minf(), stbl()];
    assert(path@ =~= tables_path());
    let mut found: Vec<BoxHeader> = Vec::new();
    match walk(buf, &moov, &path, Gather::ChunkTables, &mut found) {
        Ok(()) => {},
        Err(e) => {
            return Err(e);
        },
    }
    proof {
        lemma_descend_ok(buf@, moov, tables_path(), Gather::ChunkTables);
        assert(found@ =~= Seq::<BoxHeader>::empty() + found@);
    }
    let mut out: Vec<ChunkTable> = Vec::new();
    let mut i: usize = 0;
    while i < found.len()
        invariant
            i <= found@.len(),
            buf@.len() <= u64::MAX,
            buf@.len() <= usize::MAX,
            forall|j: int|
                0 <= j < found@.len() ==> gathered_ok(buf@, #[trigger] found@[j], Gather::ChunkTables),
            out@ == found@.subrange(0, i as int).map_values(|t: BoxHeader| table_of(buf@, t)),
        decreases found@.len() - i,
    {
        let t = found[i];
        assert(gathered_ok(buf@, t, Gather::ChunkTables));
        assert(table_check(buf@, t) is Ok);
        assert(t.end_pos() - t.payload() >= 8);
        let p = t.payload_offset() as usize;
        let count = read_u32(buf, p + 4) as usize;
        out.push(ChunkTable { kind: t.kind, entries_offset: p + 8, count });
        i = i + 1;
        assert(out@ =~= found@.subrange(0, i as int).map_values(
            |t: BoxHeader| table_of(buf@, t),
        ));
    }
    assert(found@.subrange(0, i as int) =~= found@);
    Ok(out)
}

/// Whether one of `kids` has type `kind`.
pub open spec fn has_kind(kids: Seq<BoxHeader>, kind: FourCc) -> bool {
    exists|i: int| 0 <= i < kids.len() && (#[trigger] kids[i]).kind == kind
}

/// Whether `moov` has an `mvex` child.
pub open spec fn spec_is_fragmented(buf: Seq<u8>) -> Result<bool, Mp4Error> {
    match spec_moov_header(buf) {
        Err(e) => Err(e),
        Ok(moov) => match spec_container_children(buf, moov) {
            Err(e) => Err(e),
            Ok(kids) => Ok(has_kind(kids, mvex())),
        },
    }
}

/// True if `moov` contains `mvex` (fragmented MP4: samples live in `moof`
/// fragments whose offsets are not tracked).
pub fn is_fragmented(buf: &[u8]) -> (r: Result<bool, Mp4Error>)
    ensures
        r == spec_is_fragmented(buf@),
{
    let _ = buf.len();
    let moov = match moov_header(buf) {
        Ok(m) => m,
        Err(e) => {
            return Err(e);
        },
    };
    proof {
        lemma_moov_header_ok(buf@);
    }
    let kids = match container_children(buf, &moov) {
        Ok(k) => k,
        Err(e) => {
            return Err(e);
        },
    };
    let mut i: usize = 0;
    while i < kids.len()
        invariant
            i <= kids@.len(),
            spec_moov_header(buf@) == Ok::<_, Mp4Error>(moov),
            spec_container_children(buf@, moov) == Ok::<_, Mp4Error>(kids@),
            forall|j: int| 0 <= j < i ==> (#[trigger] kids@[j]).kind != mvex(),
        decreases kids@.len() - i,
    {
        if kids[i].kind.is(&mvex()) {
            assert(kids@[i as int].kind == mvex());
            assert(has_kind(kids@, mvex()));
            return Ok(true);
        }
        i = i + 1;
    }
    Ok(false)
}

/// All `covr` boxes under `moov/udta/meta/ilst`, in document order.
pub open spec fn spec_find_covr(buf: Seq<u8>) -> Result<Seq<BoxHeader>, Mp4Error> {
    match spec_moov_header(buf) {
        Err(e) => Err(e),
        Ok(moov) => descend(buf, moov, covers_path(), Gather::CoverItems),
    }
}

/// All `covr` boxes under `moov/udta/meta/ilst`.
pub fn find_covr(buf: &[u8]) -> (r: Result<Vec<BoxHeader>, Mp4Error>)
    ensures
        match r {
            Ok(v) => spec_find_covr(buf@) == Ok::<_, Mp4Error>(v@),
            Err(e) => spec_find_covr(buf@) == Err::<Seq<BoxHeader>, _>(e),
        },
{
    let moov = match moov_header(buf) {
        Ok(m) => m,
        Err(e) => {
            return Err(e);
        },
    };
    proof {
        lemma_moov_header_ok(buf@);
    }
    let path = [udta(), meta(), ilst()];
    assert(path@ =~= covers_path());
    let mut out: Vec<BoxHeader> = Vec::new();
    match walk(buf, &moov, &path, Gather::CoverItems, &mut out) {
        Ok(()) => {},
        Err(e) => {
            return Err(e);
        },
    }
    assert(out@ =~= Seq::<BoxHeader>::empty() + out@);
    Ok(out)
}

/// Writing entry `i` of a table and reading it back gives the value written
/// (a `stco` entry holds 32 bits); every other entry reads as before, and the
/// buffer keeps its length.
pub proof fn law_chunk_entry_write_read(t: ChunkTable, buf: Seq<u8>, i: int, j: int, v: u64)
    requires
        0 <= i,
        0 <= j,
        t.entry_pos(i) + t.width() <= buf.len(),
        t.entry_pos(j) + t.width() <= buf.len(),
        t.kind == co64() || v <= u32::MAX,
    ensures
        ({
            let b2 = splice(
                buf,
                t.entry_pos(i),
                if t.kind == co64() {
                    u64_bytes(v as int)
                } else {
                    u32_bytes(v as int)
                },
            );
            &&& b2.len() == buf.len()
            &&& t.entry(b2, i) == v
            &&& j != i ==> t.entry(b2, j) == t.entry(buf, j)
        }),
{
    let w = t.width();
    let bytes = if t.kind == co64() {
        u64_bytes(v as int)
    } else {
        u32_bytes(v as int)
    };
    let pi = t.entry_pos(i);
    let pj = t.entry_pos(j);
    let b2 = splice(buf, pi, bytes);
    if t.kind == co64() {
        lemma_u64_roundtrip(v as int);
    } else {
        lemma_u32_roundtrip(v as int);
    }
    assert(bytes.len() == w);
    assert(b2.len() == buf.len());
    assert(b2.subrange(pi, pi + 4) =~= bytes.subrange(0, 4));
    lemma_be32_window(b2, pi, bytes, 0);
    if t.kind == co64() {
        assert(b2.subrange(pi + 4, pi + 8) =~= bytes.subrange(4, 8));
        lemma_be32_window(b2, pi + 4, bytes, 4);
    }
    if j != i {
        assert(pj + w <= pi || pi + w <= pj);
        assert(b2.subrange(pj, pj + 4) =~= buf.subrange(pj, pj + 4));
        lemma_be32_window(b2, pj, buf, pj);
        if t.kind == co64() {
            assert(b2.subrange(pj + 4, pj + 8) =~= buf.subrange(pj + 4, pj + 8));
            lemma_be32_window(b2, pj + 4, buf, pj + 4);
        }
    }
}

/// The cover items found in a `moov` are `covr` boxes, well formed, inside
/// the buffer, and in document order, none overlapping the next.
pub proof fn law_find_covr_in_order(buf: Seq<u8>)
    requires
        buf.len() <= u64::MAX,
    ensures
        spec_find_covr(buf) matches Ok(cs) ==> {
            &&& ordered(cs)
            &&& within(cs, 0, buf.len() as int)
            &&& forall|i: int| 0 <= i < cs.len() ==> (#[trigger] cs[i]).kind == covr() && cs[i].wf()
        },
{
    lemma_moov_header_ok(buf);
    match spec_moov_header(buf) {
        Ok(m) => {
            lemma_descend_ok(buf, m, covers_path(), Gather::CoverItems);
            lemma_descend_placed(buf, m, covers_path(), Gather::CoverItems);
            match spec_find_covr(buf) {
                Ok(cs) => {
                    assert forall|i: int| 0 <= i < cs.len() implies (#[trigger] cs[i]).kind == covr()
                        && cs[i].wf() by {
                        assert(gathered_ok(buf, cs[i], Gather::CoverItems));
                    }
                },
                Err(_) => {},
            }
        },
        Err(_) => {},
    }
}

} // verus!
