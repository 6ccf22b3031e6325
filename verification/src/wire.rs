//! Byte formats exchanged with a shell that owns the file I/O (the browser
//! build): the top-level box list it hands in, the plan it gets back, the
//! count a `moov` check returns, and the status that says why a request was
//! refused. All integers are little-endian.
//!
//! Top-level box list: records of 21 bytes, `kind[4] offset:u64 size:u64
//! header_len:u8`.
//!
//! Plan:
//! ```text
//! u8  strategy         0 SameSize, 1 MoovLast, 2 ResizeFree, 3 InsertFree, 4 ShiftAndPatch
//! i64 delta
//! u32 patched_offsets
//! u64 output_len
//! u32 covr_len
//! u32 removed_covr
//! u64 old_moov_offset
//! u64 old_moov_end
//! u16 created_len, created (utf-8, e.g. "udta/meta/ilst")
//! u32 segment_count
//!     u8 tag (0 copy: offset,len from input | 1 bytes: offset,len into blob)
//!     u64 a
//!     u64 b
//! u32 blob_len, blob
//! ```

use vstd::prelude::*;

use vstd::string::StringSliceAdditionalSpecFns;

use crate::mp4::be::push_all;
use crate::mp4::box_header::{kind_at, BoxHeader, FourCc};
use crate::mp4::error::Mp4Error;
use crate::mp4::artwork::{covr_box, covr_bytes, spec_sniff, ImageKind};
use crate::mp4::finder::{mdat, moov, sum_sizes};
use crate::mp4::planner::{
    lemma_plan_facts, lemma_total_len_nonneg, plan_moov, spec_plan_moov, total_len, Plan, PlanView, Segment,
    SegmentView, Strategy,
};
use crate::mp4::rebuild::growth;
use crate::mp4::verify::{check_moov_pair, spec_check_moov_pair, MoovExpectation};

verus! {

/// The request succeeded.
pub const STATUS_OK: i32 = 0;

/// The request failed for a reason not listed below.
pub const STATUS_ERROR: i32 = 1;

/// The file is a fragmented MP4.
pub const STATUS_FRAGMENTED: i32 = 2;

/// The file's `moov` / `mdat` layout cannot be rewritten.
pub const STATUS_UNSUPPORTED_LAYOUT: i32 = 3;

/// The image is neither JPEG nor PNG.
pub const STATUS_BAD_IMAGE: i32 = 4;

/// Length of one record of the top-level box list.
pub const TOP_RECORD_LEN: usize = 21;

/// The little-endian `u32` stored at `s[p..p + 4]`.
pub open spec fn le32(s: Seq<u8>, p: int) -> int {
    s[p] + s[p + 1] * 0x100 + s[p + 2] * 0x1_0000 + s[p + 3] * 0x100_0000
}

/// The little-endian `u64` stored at `s[p..p + 8]`.
pub open spec fn le64(s: Seq<u8>, p: int) -> int {
    le32(s, p) + le32(s, p + 4) * 0x1_0000_0000
}

/// Record `i` of a top-level box list.
pub open spec fn top_record(s: Seq<u8>, i: int) -> BoxHeader {
    let p = 21 * i;
    BoxHeader {
        kind: kind_at(s, p),
        offset: le64(s, p + 4) as u64,
        size: le64(s, p + 12) as u64,
        header_len: s[p + 20],
    }
}

/// The headers listed in `s`, or the refusal of a list that is not a whole
/// number of records.
pub open spec fn spec_decode_top_level(s: Seq<u8>) -> Result<Seq<BoxHeader>, Mp4Error> {
    if s.len() % 21 != 0 {
        Err(Mp4Error::TopLevelListSize { len: s.len() as usize })
    } else {
        Ok(Seq::new((s.len() / 21) as nat, |i: int| top_record(s, i)))
    }
}

/// Read the little-endian `u64` at `s[p..p + 8]`.
fn read_le_u64(s: &[u8], p: usize) -> (r: u64)
    requires
        p + 8 <= s@.len(),
    ensures
        r == le64(s@, p as int),
{
    let lo: u64 = s[p] as u64 + s[p + 1] as u64 * 0x100 + s[p + 2] as u64 * 0x1_0000 + s[p + 3] as u64
        * 0x100_0000;
    let hi: u64 = s[p + 4] as u64 + s[p + 5] as u64 * 0x100 + s[p + 6] as u64 * 0x1_0000 + s[p + 7] as u64
        * 0x100_0000;
    lo + hi * 0x1_0000_0000
}

/// Decode a top-level box list.
pub fn decode_top_level(bytes: &[u8]) -> (r: Result<Vec<BoxHeader>, Mp4Error>)
    ensures
        match spec_decode_top_level(bytes@) {
            Ok(hs) => r matches Ok(v) && v@ == hs,
            Err(e) => r == Err::<Vec<BoxHeader>, _>(e),
        },
{
    let len = bytes.len();
    if len % TOP_RECORD_LEN != 0 {
        return Err(Mp4Error::TopLevelListSize { len });
    }
    let n = len / TOP_RECORD_LEN;
    let mut out: Vec<BoxHeader> = Vec::new();
    let mut i: usize = 0;
    let mut p: usize = 0;
    while i < n
        invariant
            n == bytes@.len() / 21,
            bytes@.len() % 21 == 0,
            i <= n,
            p == 21 * i,
            out@ == Seq::new(i as nat, |k: int| top_record(bytes@, k)),
        decreases n - i,
    {
        assert(p + 21 <= bytes@.len()) by {
            assert(21 * (i + 1) <= 21 * n);
        }
        let h = BoxHeader {
            kind: FourCc([bytes[p], bytes[p + 1], bytes[p + 2], bytes[p + 3]]),
            offset: read_le_u64(bytes, p + 4),
            size: read_le_u64(bytes, p + 12),
            header_len: bytes[p + 20],
        };
        out.push(h);
        proof {
            assert(h == top_record(bytes@, i as int));
            assert(out@ =~= Seq::new((i + 1) as nat, |k: int| top_record(bytes@, k)));
        }
        i = i + 1;
        p = p + 21;
    }
    Ok(out)
}

/// Little-endian encoding of `v` (below 2^16) on two bytes.
#[verifier::opaque]
pub open spec fn le_u16_bytes(v: int) -> Seq<u8> {
    seq![(v % 0x100) as u8, ((v / 0x100) % 0x100) as u8]
}

/// Little-endian encoding of `v` (below 2^32) on four bytes.
#[verifier::opaque]
pub open spec fn le_u32_bytes(v: int) -> Seq<u8> {
    seq![
        (v % 0x100) as u8,
        ((v / 0x100) % 0x100) as u8,
        ((v / 0x1_0000) % 0x100) as u8,
        ((v / 0x100_0000) % 0x100) as u8,
    ]
}

/// Little-endian encoding of `v` (below 2^64) on eight bytes.
#[verifier::opaque]
pub open spec fn le_u64_bytes(v: int) -> Seq<u8> {
    le_u32_bytes(v % 0x1_0000_0000) + le_u32_bytes(v / 0x1_0000_0000)
}

/// Append the little-endian bytes of `v`.
fn push_le_u16(out: &mut Vec<u8>, v: u16)
    ensures
        final(out)@ == old(out)@ + le_u16_bytes(v as int),
{
    out.push((v % 0x100) as u8);
    out.push(((v / 0x100) % 0x100) as u8);
    proof {
        reveal(le_u16_bytes);
        assert(final(out)@ =~= old(out)@ + le_u16_bytes(v as int));
    }
}

/// Append the little-endian bytes of `v`.
fn push_le_u32(out: &mut Vec<u8>, v: u32)
    ensures
        final(out)@ == old(out)@ + le_u32_bytes(v as int),
{
    out.push((v % 0x100) as u8);
    out.push(((v / 0x100) % 0x100) as u8);
    out.push(((v / 0x1_0000) % 0x100) as u8);
    out.push(((v / 0x100_0000) % 0x100) as u8);
    proof {
        reveal(le_u32_bytes);
        assert(final(out)@ =~= old(out)@ + le_u32_bytes(v as int));
    }
}

/// Append the little-endian bytes of `v`.
fn push_le_u64(out: &mut Vec<u8>, v: u64)
    ensures
        final(out)@ == old(out)@ + le_u64_bytes(v as int),
{
    push_le_u32(out, (v % 0x1_0000_0000) as u32);
    push_le_u32(out, (v / 0x1_0000_0000) as u32);
    proof {
        reveal(le_u64_bytes);
        assert(final(out)@ =~= old(out)@ + le_u64_bytes(v as int));
    }
}

/// Number written for each strategy.
pub open spec fn strategy_code(s: Strategy) -> u8 {
    match s {
        Strategy::SameSize => 0,
        Strategy::MoovLast => 1,
        Strategy::ResizeFree => 2,
        Strategy::InsertFree => 3,
        Strategy::ShiftAndPatch => 4,
    }
}

fn encode_strategy(s: Strategy) -> (r: u8)
    ensures
        r == strategy_code(s),
{
    match s {
        Strategy::SameSize => 0,
        Strategy::MoovLast => 1,
        Strategy::ResizeFree => 2,
        Strategy::InsertFree => 3,
        Strategy::ShiftAndPatch => 4,
    }
}

/// The names `names` joined with `/`, as UTF-8.
pub open spec fn joined(names: Seq<&'static str>) -> Seq<u8>
    decreases names.len(),
{
    if names.len() == 0 {
        Seq::empty()
    } else if names.len() == 1 {
        names[0].spec_bytes()
    } else {
        joined(names.drop_last()) + seq![0x2fu8] + names.last().spec_bytes()
    }
}

/// Join names with `/`.
fn join_names(names: &Vec<&'static str>) -> (r: Vec<u8>)
    ensures
        r@ == joined(names@),
{
    let mut out: Vec<u8> = Vec::new();
    let mut i: usize = 0;
    while i < names.len()
        invariant
            i <= names@.len(),
            out@ == joined(names@.take(i as int)),
        decreases names@.len() - i,
    {
        if i > 0 {
            out.push(0x2f);
        }
        push_all(&mut out, names[i].as_bytes());
        proof {
            let t = names@.take(i + 1);
            assert(t.drop_last() =~= names@.take(i as int));
            assert(t.last() == names@[i as int]);
            if i == 0 {
                assert(t.len() == 1);
                assert(out@ =~= joined(t));
            } else {
                assert(out@ =~= joined(t));
            }
        }
        i = i + 1;
    }
    assert(names@.take(names@.len() as int) =~= names@);
    out
}

/// The segment records of a plan, and the blob their new bytes go to: a
/// copy names its input range; new bytes name their range in the blob.
pub open spec fn segment_records(segs: Seq<SegmentView>) -> (Seq<u8>, Seq<u8>)
    decreases segs.len(),
{
    if segs.len() == 0 {
        (Seq::empty(), Seq::empty())
    } else {
        let (r, b) = segment_records(segs.drop_last());
        match segs.last() {
            SegmentView::Copy { offset, len } => (
                r + seq![0u8] + le_u64_bytes(offset as int) + le_u64_bytes(len as int),
                b,
            ),
            SegmentView::Bytes(x) => (
                r + seq![1u8] + le_u64_bytes(b.len() as int) + le_u64_bytes(x.len() as int),
                b + x,
            ),
        }
    }
}

/// The bytes a plan is sent back as.
pub open spec fn spec_encode_plan(p: PlanView) -> Seq<u8> {
    let created = joined(p.created);
    let (recs, blob) = segment_records(p.segments);
    seq![strategy_code(p.strategy)] + le_u64_bytes(((p.delta as i64) as u64) as int) + le_u32_bytes(
        (p.patched_offsets as u32) as int,
    ) + le_u64_bytes((p.output_len as u64) as int) + le_u32_bytes((p.covr_len as u32) as int)
        + le_u32_bytes((p.removed_covr as u32) as int) + le_u64_bytes(p.old_moov.offset as int)
        + le_u64_bytes(p.old_moov.end_pos()) + le_u16_bytes((created.len() as u16) as int) + created
        + le_u32_bytes((p.segments.len() as u32) as int) + recs + le_u32_bytes((blob.len() as u32) as int)
        + blob
}

/// Encode a plan.
#[verifier::rlimit(40)]
pub fn encode_plan(plan: Plan) -> (r: Vec<u8>)
    requires
        plan.old_moov.end_pos() <= u64::MAX,
    ensures
        r@ == spec_encode_plan(plan@),
{
    let ghost pv = plan@;
    let mut out: Vec<u8> = Vec::new();
    out.push(encode_strategy(plan.strategy));
    push_le_u64(&mut out, plan.delta as u64);
    push_le_u32(&mut out, plan.patched_offsets as u32);
    push_le_u64(&mut out, plan.output_len);
    push_le_u32(&mut out, plan.covr_len as u32);
    push_le_u32(&mut out, plan.rebuild.removed_covr as u32);
    push_le_u64(&mut out, plan.old_moov.offset);
    push_le_u64(&mut out, plan.old_moov.end());
    let created = join_names(&plan.rebuild.created);
    push_le_u16(&mut out, created.len() as u16);
    push_all(&mut out, created.as_slice());
    push_le_u32(&mut out, plan.segments.len() as u32);
    let ghost head = out@;
    let ghost segs = pv.segments;
    let mut blob: Vec<u8> = Vec::new();
    let mut i: usize = 0;
    while i < plan.segments.len()
        invariant
            i <= plan.segments@.len(),
            segs == plan.segments@.map_values(|s: Segment| s@),
            out@ == head + segment_records(segs.take(i as int)).0,
            blob@ == segment_records(segs.take(i as int)).1,
        decreases plan.segments@.len() - i,
    {
        let ghost before = segs.take(i as int);
        let ghost after = segs.take(i + 1);
        proof {
            assert(after.drop_last() =~= before);
            assert(after.last() == plan.segments@[i as int]@);
        }
        match &plan.segments[i] {
            Segment::Copy { offset, len } => {
                out.push(0);
                push_le_u64(&mut out, *offset);
                push_le_u64(&mut out, *len);
            },
            Segment::Bytes(b) => {
                out.push(1);
                push_le_u64(&mut out, blob.len() as u64);
                push_le_u64(&mut out, b.len() as u64);
                push_all(&mut blob, b.as_slice());
            },
        }
        proof {
            assert(out@ =~= head + segment_records(after).0);
            assert(blob@ =~= segment_records(after).1);
        }
        i = i + 1;
    }
    proof {
        assert(segs.take(segs.len() as int) =~= segs);
    }
    push_le_u32(&mut out, blob.len() as u32);
    push_all(&mut out, blob.as_slice());
    proof {
        assert(out@ =~= spec_encode_plan(pv));
    }
    out
}

/// The status a refused plan is reported with: a fragmented file; a `moov`
/// / `mdat` layout that cannot be rewritten, including any refusal whose
/// report names a `moov` or `mdat` box (a header cut short names none); or
/// any other failure.
pub open spec fn spec_plan_status(e: Mp4Error) -> i32 {
    match e {
        Mp4Error::FragmentedTopLevel => STATUS_FRAGMENTED,
        Mp4Error::FragmentedMvex => STATUS_FRAGMENTED,
        Mp4Error::MoovCount { .. } => STATUS_UNSUPPORTED_LAYOUT,
        Mp4Error::NoMdat => STATUS_UNSUPPORTED_LAYOUT,
        Mp4Error::MoovBufferSize { .. } => STATUS_UNSUPPORTED_LAYOUT,
        Mp4Error::MoovSizeZeroTooLarge { .. } => STATUS_UNSUPPORTED_LAYOUT,
        Mp4Error::MoovTooLarge { .. } => STATUS_UNSUPPORTED_LAYOUT,
        Mp4Error::NotMoov { .. } => STATUS_UNSUPPORTED_LAYOUT,
        Mp4Error::EmptyMoov => STATUS_UNSUPPORTED_LAYOUT,
        Mp4Error::ChunkOffsetInsideMoov { .. } => STATUS_UNSUPPORTED_LAYOUT,
        Mp4Error::InvalidSize { kind, .. } => if kind == moov() || kind == mdat() {
            STATUS_UNSUPPORTED_LAYOUT
        } else {
            STATUS_ERROR
        },
        Mp4Error::PastParent { kind, .. } => if kind == moov() || kind == mdat() {
            STATUS_UNSUPPORTED_LAYOUT
        } else {
            STATUS_ERROR
        },
        Mp4Error::TruncatedPrefix { kind, .. } => if kind == moov() || kind == mdat() {
            STATUS_UNSUPPORTED_LAYOUT
        } else {
            STATUS_ERROR
        },
        Mp4Error::TruncatedTable { kind } => if kind == moov() || kind == mdat() {
            STATUS_UNSUPPORTED_LAYOUT
        } else {
            STATUS_ERROR
        },
        Mp4Error::TableTooSmall { kind, .. } => if kind == moov() || kind == mdat() {
            STATUS_UNSUPPORTED_LAYOUT
        } else {
            STATUS_ERROR
        },
        _ => STATUS_ERROR,
    }
}

/// Whether a box type is `moov` or `mdat`.
fn is_layout_box(kind: &FourCc) -> (r: bool)
    ensures
        r == (*kind == moov() || *kind == mdat()),
{
    kind.is(&moov()) || kind.is(&mdat())
}

/// The status a refused plan is reported with.
pub fn plan_status(e: &Mp4Error) -> (r: i32)
    ensures
        r == spec_plan_status(*e),
{
    match e {
        Mp4Error::FragmentedTopLevel => STATUS_FRAGMENTED,
        Mp4Error::FragmentedMvex => STATUS_FRAGMENTED,
        Mp4Error::MoovCount { .. } => STATUS_UNSUPPORTED_LAYOUT,
        Mp4Error::NoMdat => STATUS_UNSUPPORTED_LAYOUT,
        Mp4Error::MoovBufferSize { .. } => STATUS_UNSUPPORTED_LAYOUT,
        Mp4Error::MoovSizeZeroTooLarge { .. } => STATUS_UNSUPPORTED_LAYOUT,
        Mp4Error::MoovTooLarge { .. } => STATUS_UNSUPPORTED_LAYOUT,
        Mp4Error::NotMoov { .. } => STATUS_UNSUPPORTED_LAYOUT,
        Mp4Error::EmptyMoov => STATUS_UNSUPPORTED_LAYOUT,
        Mp4Error::ChunkOffsetInsideMoov { .. } => STATUS_UNSUPPORTED_LAYOUT,
        Mp4Error::InvalidSize { kind, .. } => if is_layout_box(kind) {
            STATUS_UNSUPPORTED_LAYOUT
        } else {
            STATUS_ERROR
        },
        Mp4Error::PastParent { kind, .. } => if is_layout_box(kind) {
            STATUS_UNSUPPORTED_LAYOUT
        } else {
            STATUS_ERROR
        },
        Mp4Error::TruncatedPrefix { kind, .. } => if is_layout_box(kind) {
            STATUS_UNSUPPORTED_LAYOUT
        } else {
            STATUS_ERROR
        },
        Mp4Error::TruncatedTable { kind } => if is_layout_box(kind) {
            STATUS_UNSUPPORTED_LAYOUT
        } else {
            STATUS_ERROR
        },
        Mp4Error::TableTooSmall { kind, .. } => if is_layout_box(kind) {
            STATUS_UNSUPPORTED_LAYOUT
        } else {
            STATUS_ERROR
        },
        _ => STATUS_ERROR,
    }
}

/// Whether a top-level list, a `moov` of `moov_len` bytes and a cover of
/// `covr_len` bytes are small enough for the planner's 64-bit arithmetic.
pub open spec fn sizes_fit(top: Seq<BoxHeader>, moov_len: int, covr_len: int) -> bool {
    &&& moov_len + covr_len + growth(3) + 16 <= i64::MAX
    &&& sum_sizes(top) + covr_len + growth(3) + 32 <= u64::MAX
    &&& forall|i: int| 0 <= i < top.len() ==> (#[trigger] top[i]).end_pos() <= u64::MAX
}

/// [`sizes_fit`], computed.
pub fn check_sizes(top: &[BoxHeader], moov_len: usize, covr_len: usize) -> (r: bool)
    ensures
        r == sizes_fit(top@, moov_len as int, covr_len as int),
{
    let cap: u128 = 0x1_0000_0000_0000_0000;
    let mut total: u128 = 0;
    let mut ends_fit = true;
    let mut i: usize = 0;
    while i < top.len()
        invariant
            i <= top@.len(),
            cap == 0x1_0000_0000_0000_0000u128,
            (total < cap && total == sum_sizes(top@.take(i as int))) || (total == cap && sum_sizes(
                top@.take(i as int),
            ) >= cap),
            ends_fit == forall|k: int| 0 <= k < i ==> (#[trigger] top@[k]).end_pos() <= u64::MAX,
        decreases top@.len() - i,
    {
        let h = top[i];
        proof {
            let t = top@.take(i + 1);
            assert(t.drop_last() =~= top@.take(i as int));
            assert(t.last() == h);
        }
        if total < cap {
            let next = total + h.size as u128;
            total = if next < cap {
                next
            } else {
                cap
            };
        }
        if (h.offset as u128) + (h.size as u128) > u64::MAX as u128 {
            ends_fit = false;
        }
        proof {
            assert(ends_fit == forall|k: int|
                0 <= k < i + 1 ==> (#[trigger] top@[k]).end_pos() <= u64::MAX) by {
                if ends_fit {
                    assert forall|k: int| 0 <= k < i + 1 implies (#[trigger] top@[k]).end_pos()
                        <= u64::MAX by {
                        if k == i {
                            assert(top@[k] == h);
                        }
                    }
                }
            }
        }
        i = i + 1;
    }
    proof {
        assert(top@.take(top@.len() as int) =~= top@);
    }
    let room: u128 = (covr_len as u128) + 256 * 4 + 32;
    let moov_ok = (moov_len as u128) + (covr_len as u128) + 256 * 4 + 16 <= i64::MAX as u128;
    ends_fit && moov_ok && total < cap && total + room <= u64::MAX as u128
}

/// A plan request from the shell: the top-level box list, the bytes of
/// `moov`, and the image. On success, the encoded plan; otherwise the
/// status and why.
pub open spec fn spec_plan_request(top_bytes: Seq<u8>, moov_buf: Seq<u8>, image: Seq<u8>) -> Result<
    Seq<u8>,
    (i32, Mp4Error),
> {
    match spec_decode_top_level(top_bytes) {
        Err(e) => Err((STATUS_ERROR, e)),
        Ok(top) => match spec_sniff(image) {
            Err(e) => Err((STATUS_BAD_IMAGE, e)),
            Ok(kind) => {
                let covr = covr_bytes(kind, image);
                if image.len() + 64 > u64::MAX || !sizes_fit(top, moov_buf.len() as int, covr.len() as int) {
                    Err((STATUS_ERROR, Mp4Error::SizeOutOfRange))
                } else {
                    match spec_plan_moov(top, moov_buf, covr) {
                        Err(e) => Err((spec_plan_status(e), e)),
                        Ok(p) => Ok(spec_encode_plan(p)),
                    }
                }
            },
        },
    }
}

/// Plan the rewrite of an in-memory `moov` for the shell.
pub fn plan_request(top_bytes: &[u8], moov_buf: Vec<u8>, image: &[u8]) -> (r: Result<
    Vec<u8>,
    (i32, Mp4Error),
>)
    ensures
        match spec_plan_request(top_bytes@, moov_buf@, image@) {
            Ok(b) => r matches Ok(v) && v@ == b,
            Err(x) => r == Err::<Vec<u8>, _>(x),
        },
{
    let top = match decode_top_level(top_bytes) {
        Ok(t) => t,
        Err(e) => {
            return Err((STATUS_ERROR, e));
        },
    };
    let kind = match ImageKind::sniff(image) {
        Ok(k) => k,
        Err(e) => {
            return Err((STATUS_BAD_IMAGE, e));
        },
    };
    if image.len() as u64 > u64::MAX - 64 {
        return Err((STATUS_ERROR, Mp4Error::SizeOutOfRange));
    }
    let covr = covr_box(kind, image);
    if !check_sizes(top.as_slice(), moov_buf.len(), covr.len()) {
        return Err((STATUS_ERROR, Mp4Error::SizeOutOfRange));
    }
    let ghost m = moov_buf@;
    match plan_moov(top.as_slice(), moov_buf, covr.as_slice()) {
        Ok(plan) => {
            proof {
                lemma_plan_facts(top@, m, covr@);
            }
            Ok(encode_plan(plan))
        },
        Err(e) => {
            let status = plan_status(&e);
            Err((status, e))
        },
    }
}

/// A `moov` check request from the shell: on success the number of chunk
/// offsets checked, as a little-endian `u32`.
pub fn verify_request(in_moov: &[u8], out_moov: &[u8], covr_len: u32, shift: i64, old_moov_end: u64) -> (r:
    Result<Vec<u8>, Mp4Error>)
    ensures
        match spec_check_moov_pair(
            in_moov@,
            out_moov@,
            MoovExpectation { covr_len: covr_len as usize, shift, old_moov_end },
        ) {
            Ok(n) => r matches Ok(v) && v@ == le_u32_bytes((n as u32) as int),
            Err(e) => r == Err::<Vec<u8>, _>(e),
        },
{
    let want = MoovExpectation { covr_len: covr_len as usize, shift, old_moov_end };
    match check_moov_pair(in_moov, out_moov, &want) {
        Ok(n) => {
            let mut out: Vec<u8> = Vec::new();
            push_le_u32(&mut out, n as u32);
            Ok(out)
        },
        Err(e) => Err(e),
    }
}

/// The little-endian bytes of `v` (below 2^32) read back as `v`.
proof fn lemma_le_u32_bytes(v: int)
    requires
        0 <= v < 0x1_0000_0000,
    ensures
        le_u32_bytes(v).len() == 4,
        le32(le_u32_bytes(v), 0) == v,
{
    reveal(le_u32_bytes);
    let x = v as u64;
    assert(x % 256 + ((x / 256) % 256) * 256 + ((x / 65536) % 256) * 65536 + ((x / 16777216) % 256)
        * 16777216 == x) by (bit_vector)
        requires
            x < 0x1_0000_0000,
    ;
    let b = le_u32_bytes(v);
    assert(b[0] as int == v % 0x100);
    assert(b[1] as int == (v / 0x100) % 0x100);
    assert(b[2] as int == (v / 0x1_0000) % 0x100);
    assert(b[3] as int == (v / 0x100_0000) % 0x100);
}

/// The little-endian bytes of `v` (below 2^64) read back as `v`.
proof fn lemma_le_u64_bytes(v: int)
    requires
        0 <= v <= u64::MAX,
    ensures
        le_u64_bytes(v).len() == 8,
        le64(le_u64_bytes(v), 0) == v,
{
    reveal(le_u64_bytes);
    let lo = v % 0x1_0000_0000;
    let hi = v / 0x1_0000_0000;
    lemma_le_u32_bytes(lo);
    lemma_le_u32_bytes(hi);
    let a = le_u32_bytes(lo);
    let b = le_u32_bytes(hi);
    let s = le_u64_bytes(v);
    assert(s == a + b);
    assert(le32(s, 0) == le32(a, 0)) by {
        assert(s[0] == a[0] && s[1] == a[1] && s[2] == a[2] && s[3] == a[3]);
    }
    assert(le32(s, 4) == le32(b, 0)) by {
        assert(s[4] == b[0] && s[5] == b[1] && s[6] == b[2] && s[7] == b[3]);
    }
}

/// `le64` reads only the eight bytes it starts at.
proof fn lemma_le64_at(s: Seq<u8>, p: int, a: Seq<u8>)
    requires
        0 <= p,
        p + 8 <= s.len(),
        a.len() == 8,
        forall|i: int| 0 <= i < 8 ==> s[p + i] == a[i],
    ensures
        le64(s, p) == le64(a, 0),
{
    assert(s[p] == a[0] && s[p + 1] == a[1] && s[p + 2] == a[2] && s[p + 3] == a[3]);
    assert(s[p + 4] == a[4] && s[p + 5] == a[5] && s[p + 6] == a[6] && s[p + 7] == a[7]);
}

/// The records of `n` pieces take 17 bytes each, and the blob holds no
/// more than the pieces' output.
proof fn lemma_segment_records_len(segs: Seq<SegmentView>)
    ensures
        segment_records(segs).0.len() == 17 * segs.len(),
        segment_records(segs).1.len() <= total_len(segs),
    decreases segs.len(),
{
    if segs.len() > 0 {
        lemma_segment_records_len(segs.drop_last());
        lemma_total_len_nonneg(segs.drop_last());
        match segs.last() {
            SegmentView::Copy { offset, len } => {
                lemma_le_lens(offset as int);
                lemma_le_lens(len as int);
            },
            SegmentView::Bytes(x) => {
                lemma_le_lens(segment_records(segs.drop_last()).1.len() as int);
                lemma_le_lens(x.len() as int);
            },
        }
    }
}

/// Adding a piece leaves the earlier records as they were and extends the
/// blob.
proof fn lemma_records_keep(segs: Seq<SegmentView>, k: int)
    requires
        0 <= k < segs.len() - 1,
    ensures
        ({
            let r = segment_records(segs.drop_last()).0;
            let b = segment_records(segs.drop_last()).1;
            let recs = segment_records(segs).0;
            let blob = segment_records(segs).1;
            &&& recs[17 * k] == r[17 * k]
            &&& le64(recs, 17 * k + 1) == le64(r, 17 * k + 1)
            &&& le64(recs, 17 * k + 9) == le64(r, 17 * k + 9)
            &&& b.len() <= blob.len()
            &&& blob.subrange(0, b.len() as int) == b
        }),
{
    let d = segs.drop_last();
    lemma_segment_records_len(segs);
    lemma_segment_records_len(d);
    let r = segment_records(d).0;
    let b = segment_records(d).1;
    let recs = segment_records(segs).0;
    let blob = segment_records(segs).1;
    assert(recs.subrange(0, r.len() as int) =~= r);
    assert forall|i: int| 0 <= i < r.len() implies recs[i] == r[i] by {
        assert(recs[i] == recs.subrange(0, r.len() as int)[i]);
    }
    lemma_le64_at(recs, 17 * k + 1, r.subrange(17 * k + 1, 17 * k + 9));
    lemma_le64_at(r, 17 * k + 1, r.subrange(17 * k + 1, 17 * k + 9));
    lemma_le64_at(recs, 17 * k + 9, r.subrange(17 * k + 9, 17 * k + 17));
    lemma_le64_at(r, 17 * k + 9, r.subrange(17 * k + 9, 17 * k + 17));
    assert(blob.subrange(0, b.len() as int) =~= b);
}

/// The record of the last piece.
proof fn lemma_records_last(segs: Seq<SegmentView>)
    requires
        segs.len() > 0,
        total_len(segs) <= u64::MAX,
    ensures
        ({
            let k = segs.len() - 1;
            let recs = segment_records(segs).0;
            let blob = segment_records(segs).1;
            match segs[k] {
                SegmentView::Copy { offset, len } => recs[17 * k] == 0u8 && le64(recs, 17 * k + 1)
                    == offset && le64(recs, 17 * k + 9) == len,
                SegmentView::Bytes(x) => {
                    let o = le64(recs, 17 * k + 1);
                    &&& recs[17 * k] == 1u8
                    &&& le64(recs, 17 * k + 9) == x.len()
                    &&& 0 <= o
                    &&& o + x.len() <= blob.len()
                    &&& blob.subrange(o, o + x.len()) == x
                },
            }
        }),
{
    let d = segs.drop_last();
    let k = segs.len() - 1;
    lemma_segment_records_len(d);
    lemma_total_len_nonneg(d);
    let r = segment_records(d).0;
    let b = segment_records(d).1;
    let recs = segment_records(segs).0;
    let blob = segment_records(segs).1;
    let p = 17 * k;
    assert(r.len() == p);
    assert(segs[k] == segs.last());
    match segs.last() {
        SegmentView::Copy { offset, len } => {
            let a1 = le_u64_bytes(offset as int);
            let a2 = le_u64_bytes(len as int);
            lemma_le_u64_bytes(offset as int);
            lemma_le_u64_bytes(len as int);
            assert(recs == r + seq![0u8] + a1 + a2);
            lemma_le64_at(recs, p + 1, a1);
            lemma_le64_at(recs, p + 9, a2);
        },
        SegmentView::Bytes(x) => {
            let a1 = le_u64_bytes(b.len() as int);
            let a2 = le_u64_bytes(x.len() as int);
            assert(total_len(segs) == total_len(d) + x.len());
            lemma_le_u64_bytes(b.len() as int);
            lemma_le_u64_bytes(x.len() as int);
            assert(recs == r + seq![1u8] + a1 + a2);
            lemma_le64_at(recs, p + 1, a1);
            lemma_le64_at(recs, p + 9, a2);
            assert(blob == b + x);
            assert(blob.subrange(b.len() as int, (b.len() + x.len()) as int) =~= x);
        },
    }
}

/// The little-endian encodings are two, four and eight bytes long.
proof fn lemma_le_lens(v: int)
    ensures
        le_u16_bytes(v).len() == 2,
        le_u32_bytes(v).len() == 4,
        le_u64_bytes(v).len() == 8,
{
    reveal(le_u16_bytes);
    reveal(le_u32_bytes);
    reveal(le_u64_bytes);
}

/// `le32` reads only the four bytes it starts at.
proof fn lemma_le32_at(s: Seq<u8>, p: int, a: Seq<u8>)
    requires
        0 <= p,
        p + 4 <= s.len(),
        a.len() == 4,
        forall|i: int| 0 <= i < 4 ==> s[p + i] == a[i],
    ensures
        le32(s, p) == le32(a, 0),
{
    assert(s[p] == a[0] && s[p + 1] == a[1] && s[p + 2] == a[2] && s[p + 3] == a[3]);
}

/// The little-endian bytes of `v` (below 2^16) read back as `v`.
proof fn lemma_le_u16_bytes(v: int)
    requires
        0 <= v <= u16::MAX,
    ensures
        le_u16_bytes(v).len() == 2,
        le_u16_bytes(v)[0] + le_u16_bytes(v)[1] * 0x100 == v,
{
    reveal(le_u16_bytes);
}

/// A `u64` field of an encoded plan's fixed head reads back as written.
proof fn lemma_field64(out: Seq<u8>, a: Seq<u8>, at: int, v: int)
    requires
        0 <= v <= u64::MAX,
        0 <= at,
        at + 8 <= a.len(),
        a.len() <= out.len(),
        forall|i: int| 0 <= i < a.len() ==> out[i] == a[i],
        a.subrange(at, at + 8) == le_u64_bytes(v),
    ensures
        le64(out, at) == v,
{
    lemma_le_u64_bytes(v);
    assert forall|i: int| 0 <= i < 8 implies out[at + i] == le_u64_bytes(v)[i] by {
        assert(a.subrange(at, at + 8)[i] == a[at + i]);
    }
    lemma_le64_at(out, at, le_u64_bytes(v));
}

/// A `u32` field of an encoded plan's fixed head reads back as written.
proof fn lemma_field32(out: Seq<u8>, a: Seq<u8>, at: int, v: int)
    requires
        0 <= v <= u32::MAX,
        0 <= at,
        at + 4 <= a.len(),
        a.len() <= out.len(),
        forall|i: int| 0 <= i < a.len() ==> out[i] == a[i],
        a.subrange(at, at + 4) == le_u32_bytes(v),
    ensures
        le32(out, at) == v,
{
    lemma_le_u32_bytes(v);
    assert forall|i: int| 0 <= i < 4 implies out[at + i] == le_u32_bytes(v)[i] by {
        assert(a.subrange(at, at + 4)[i] == a[at + i]);
    }
    lemma_le32_at(out, at, le_u32_bytes(v));
}

/// How an encoded plan reads back, field by field, all little-endian: the
/// strategy as one byte (0 same size, 1 `moov` last, 2 resized `free`, 3
/// inserted `free`, 4 shifted and patched), `delta` as a two's-complement
/// `i64`, the patched offset count as a `u32`, the output length as a
/// `u64`, the cover's length and the removed cover count as `u32`s, the old
/// `moov`'s offset and end as `u64`s, the length of the joined names of
/// created boxes as a `u16` and the names, then the number of pieces, their
/// records, the blob's length and the blob (see
/// [`law_segment_records_decode`] for what the records say).
#[verifier::spinoff_prover]
pub proof fn law_encoded_plan_layout(p: PlanView)
    requires
        0 <= p.output_len <= u64::MAX,
        i64::MIN <= p.delta <= i64::MAX,
        p.patched_offsets <= u32::MAX,
        p.covr_len <= u32::MAX,
        p.removed_covr <= u32::MAX,
        p.old_moov.end_pos() <= u64::MAX,
        joined(p.created).len() <= u16::MAX,
        p.segments.len() <= u32::MAX,
        segment_records(p.segments).1.len() <= u32::MAX,
    ensures
        ({
            let out = spec_encode_plan(p);
            let c = joined(p.created).len() as int;
            let n = p.segments.len() as int;
            let recs = segment_records(p.segments).0;
            let blob = segment_records(p.segments).1;
            &&& out[0] == match p.strategy {
                Strategy::SameSize => 0u8,
                Strategy::MoovLast => 1u8,
                Strategy::ResizeFree => 2u8,
                Strategy::InsertFree => 3u8,
                Strategy::ShiftAndPatch => 4u8,
            }
            &&& (le64(out, 1) as u64) as i64 == p.delta
            &&& le32(out, 9) == p.patched_offsets
            &&& le64(out, 13) == p.output_len
            &&& le32(out, 21) == p.covr_len
            &&& le32(out, 25) == p.removed_covr
            &&& le64(out, 29) == p.old_moov.offset
            &&& le64(out, 37) == p.old_moov.end_pos()
            &&& out[45] + out[46] * 0x100 == c
            &&& out.subrange(47, 47 + c) == joined(p.created)
            &&& le32(out, 47 + c) == n
            &&& out.subrange(51 + c, 51 + c + recs.len()) == recs
            &&& le32(out, 51 + c + recs.len()) == blob.len()
            &&& out.subrange(55 + c + recs.len(), out.len() as int) == blob
        }),
{
    let created = joined(p.created);
    let recs = segment_records(p.segments).0;
    let blob = segment_records(p.segments).1;
    let c = created.len() as int;
    let n = p.segments.len() as int;
    let a = seq![strategy_code(p.strategy)] + le_u64_bytes(((p.delta as i64) as u64) as int) + le_u32_bytes(
        (p.patched_offsets as u32) as int,
    ) + le_u64_bytes((p.output_len as u64) as int) + le_u32_bytes((p.covr_len as u32) as int)
        + le_u32_bytes((p.removed_covr as u32) as int) + le_u64_bytes(p.old_moov.offset as int)
        + le_u64_bytes(p.old_moov.end_pos()) + le_u16_bytes((created.len() as u16) as int);
    let nb = le_u32_bytes((p.segments.len() as u32) as int);
    let bb = le_u32_bytes((blob.len() as u32) as int);
    let out = spec_encode_plan(p);
    assert(out == a + created + nb + recs + bb + blob);
    lemma_le_lens(((p.delta as i64) as u64) as int);
    lemma_le_lens((p.patched_offsets as u32) as int);
    lemma_le_lens((p.output_len as u64) as int);
    lemma_le_lens((p.covr_len as u32) as int);
    lemma_le_lens((p.removed_covr as u32) as int);
    lemma_le_lens(p.old_moov.offset as int);
    lemma_le_lens(p.old_moov.end_pos());
    lemma_le_lens((created.len() as u16) as int);
    lemma_le_lens((p.segments.len() as u32) as int);
    lemma_le_lens((blob.len() as u32) as int);
    assert(a.len() == 47);
    let ob = le_u64_bytes(p.output_len);
    lemma_le_u64_bytes(p.output_len);
    assert(a.subrange(13, 21) =~= ob);
    assert forall|i: int| 0 <= i < 8 implies out[13 + i] == ob[i] by {
        assert(out[13 + i] == a[13 + i]);
        assert(a.subrange(13, 21)[i] == a[13 + i]);
    }
    lemma_le64_at(out, 13, ob);
    assert forall|i: int| 0 <= i < a.len() implies out[i] == a[i] by {}
    let x1 = le_u64_bytes(((p.delta as i64) as u64) as int);
    let x2 = le_u32_bytes((p.patched_offsets as u32) as int);
    let x3 = le_u64_bytes((p.output_len as u64) as int);
    let x4 = le_u32_bytes((p.covr_len as u32) as int);
    let x5 = le_u32_bytes((p.removed_covr as u32) as int);
    let x6 = le_u64_bytes(p.old_moov.offset as int);
    let x7 = le_u64_bytes(p.old_moov.end_pos());
    assert(a.subrange(1, 9) =~= x1);
    assert(a.subrange(9, 13) =~= x2);
    assert(a.subrange(21, 25) =~= x4);
    assert(a.subrange(25, 29) =~= x5);
    assert(a.subrange(29, 37) =~= x6);
    assert(a.subrange(37, 45) =~= x7);
    lemma_field64(out, a, 1, ((p.delta as i64) as u64) as int);
    let d = p.delta as i64;
    assert(((d as u64) as i64) == d) by (bit_vector);
    lemma_field32(out, a, 9, (p.patched_offsets as u32) as int);
    lemma_field32(out, a, 21, (p.covr_len as u32) as int);
    lemma_field32(out, a, 25, (p.removed_covr as u32) as int);
    lemma_field64(out, a, 29, p.old_moov.offset as int);
    lemma_field64(out, a, 37, p.old_moov.end_pos());
    lemma_le_u16_bytes(c);
    let cb = le_u16_bytes(c);
    assert(a.subrange(45, 47) =~= cb);
    assert(out[45] == a[45] && out[46] == a[46]);
    assert(a.subrange(45, 47)[0] == a[45] && a.subrange(45, 47)[1] == a[46]);
    lemma_le_u32_bytes(n);
    lemma_le_u32_bytes(blob.len() as int);
    let r0 = 47 + c;
    let r1 = 51 + c;
    let r2 = 51 + c + recs.len();
    let r3 = 55 + c + recs.len();
    assert(out.subrange(47, r0) =~= created);
    assert(out.subrange(r0, r1) =~= nb);
    assert(out.subrange(r1, r2) =~= recs);
    assert(out.subrange(r2, r3) =~= bb);
    assert(out.subrange(r3, out.len() as int) =~= blob);
    assert forall|i: int| 0 <= i < 4 implies out[r0 + i] == nb[i] by {
        assert(out.subrange(r0, r1)[i] == out[r0 + i]);
    }
    assert forall|i: int| 0 <= i < 4 implies out[r2 + i] == bb[i] by {
        assert(out.subrange(r2, r3)[i] == out[r2 + i]);
    }
    lemma_le32_at(out, r0, nb);
    lemma_le32_at(out, r2, bb);
}

/// The records and blob of a plan's pieces decode back to the pieces.
/// Record `k` is the 17 bytes at `17 * k`: a copied range gives tag 0, its
/// input offset and its length; new bytes give tag 1, then an offset and a
/// length that name exactly those bytes in the blob.
pub proof fn law_segment_records_decode(segs: Seq<SegmentView>, k: int)
    requires
        0 <= k < segs.len(),
        total_len(segs) <= u64::MAX,
    ensures
        ({
            let recs = segment_records(segs).0;
            let blob = segment_records(segs).1;
            &&& recs.len() == 17 * segs.len()
            &&& match segs[k] {
                SegmentView::Copy { offset, len } => recs[17 * k] == 0u8 && le64(recs, 17 * k + 1)
                    == offset && le64(recs, 17 * k + 9) == len,
                SegmentView::Bytes(x) => {
                    let o = le64(recs, 17 * k + 1);
                    &&& recs[17 * k] == 1u8
                    &&& le64(recs, 17 * k + 9) == x.len()
                    &&& 0 <= o
                    &&& o + x.len() <= blob.len()
                    &&& blob.subrange(o, o + x.len()) == x
                },
            }
        }),
    decreases segs.len(),
{
    let d = segs.drop_last();
    lemma_segment_records_len(segs);
    if k < segs.len() - 1 {
        lemma_total_len_nonneg(seq![segs.last()]);
        assert(total_len(d) <= total_len(segs)) by {
            lemma_total_len_nonneg(d);
            match segs.last() {
                SegmentView::Copy { offset, len } => {},
                SegmentView::Bytes(x) => {},
            }
        }
        law_segment_records_decode(d, k);
        lemma_records_keep(segs, k);
        assert(d[k] == segs[k]);
        let b = segment_records(d).1;
        let blob = segment_records(segs).1;
        match segs[k] {
            SegmentView::Copy { offset, len } => {},
            SegmentView::Bytes(x) => {
                let o = le64(segment_records(d).0, 17 * k + 1);
                assert(blob.subrange(o, o + x.len()) =~= blob.subrange(0, b.len() as int).subrange(
                    o,
                    o + x.len(),
                ));
            },
        }
    } else {
        lemma_records_last(segs);
    }
}

/// A plan request is refused for its sizes only where the planner's 64-bit
/// arithmetic could overflow: for a well-formed list of top-level boxes and
/// a recognised image, with every box ending within 64 bits and the boxes,
/// the cover and the boxes it may bring along summing to less than 2^64
/// bytes (and the `moov` and cover to less than 2^63), the answer is the
/// planner's own: the encoded plan, or the planner's refusal with its status.
/// Files of many gigabytes are planned like any other.
pub proof fn law_plan_request_refuses_only_overflow(top_bytes: Seq<u8>, moov_buf: Seq<u8>, image: Seq<u8>)
    requires
        spec_decode_top_level(top_bytes) is Ok,
        spec_sniff(image) is Ok,
        moov_buf.len() + image.len() + 40 + growth(3) + 16 <= i64::MAX,
        sum_sizes(spec_decode_top_level(top_bytes).unwrap()) + image.len() + 40 + growth(3) + 32 <= u64::MAX,
        forall|i: int|
            0 <= i < spec_decode_top_level(top_bytes).unwrap().len() ==> (#[trigger] spec_decode_top_level(
                top_bytes,
            ).unwrap()[i]).end_pos() <= u64::MAX,
    ensures
        ({
            let top = spec_decode_top_level(top_bytes).unwrap();
            let covr = covr_bytes(spec_sniff(image).unwrap(), image);
            spec_plan_request(top_bytes, moov_buf, image) == match spec_plan_moov(top, moov_buf, covr) {
                Ok(p) => Ok::<Seq<u8>, (i32, Mp4Error)>(spec_encode_plan(p)),
                Err(e) => Err((spec_plan_status(e), e)),
            }
        }),
{
    let kind = spec_sniff(image).unwrap();
    let inner = crate::mp4::artwork::data_payload(kind, image);
    assert(inner.len() == image.len() + 8);
    let d = crate::mp4::box_header::box_bytes(crate::mp4::artwork::data(), 8, inner);
    crate::mp4::box_header::lemma_box_bytes_shape(crate::mp4::artwork::data(), 8, inner);
    crate::mp4::box_header::lemma_box_bytes_shape(crate::mp4::finder::covr(), 8, d);
    assert(covr_bytes(kind, image).len() <= image.len() + 40);
}

/// A plan request whose top-level list is not a whole number of 21-byte
/// records is refused with status 1; one whose list is whole but whose
/// image starts neither with `FF D8 FF` nor with the PNG signature is
/// refused with status 4. Each record reads back as the box it lists:
/// type, then offset and size as little-endian `u64`s, then header length.
pub proof fn law_plan_request_input_errors(top_bytes: Seq<u8>, moov_buf: Seq<u8>, image: Seq<u8>, i: int)
    ensures
        top_bytes.len() % 21 != 0 ==> spec_plan_request(top_bytes, moov_buf, image) == Err::<
            Seq<u8>,
            (i32, Mp4Error),
        >((1i32, Mp4Error::TopLevelListSize { len: top_bytes.len() as usize })),
        top_bytes.len() % 21 == 0 && !(image.len() >= 3 && image[0] == 0xFFu8 && image[1] == 0xD8u8
            && image[2] == 0xFFu8) && !(image.len() >= 8 && image[0] == 0x89u8 && image[1] == 0x50u8
            && image[2] == 0x4Eu8 && image[3] == 0x47u8 && image[4] == 0x0Du8 && image[5] == 0x0Au8
            && image[6] == 0x1Au8 && image[7] == 0x0Au8) ==> spec_plan_request(top_bytes, moov_buf, image)
            == Err::<Seq<u8>, (i32, Mp4Error)>((4i32, Mp4Error::UnrecognizedImage)),
        top_bytes.len() % 21 == 0 && 0 <= i < top_bytes.len() / 21 ==> (spec_decode_top_level(top_bytes)
            matches Ok(top) && top[i] == (BoxHeader {
            kind: FourCc(
                [top_bytes[21 * i], top_bytes[21 * i + 1], top_bytes[21 * i + 2], top_bytes[21 * i + 3]],
            ),
            offset: le64(top_bytes, 21 * i + 4) as u64,
            size: le64(top_bytes, 21 * i + 12) as u64,
            header_len: top_bytes[21 * i + 20],
        })),
{
    crate::mp4::artwork::law_sniff_by_magic(image);
}

} // verus!
