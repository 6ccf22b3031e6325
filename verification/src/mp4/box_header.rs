//! ISO-BMFF box header: 32-bit size + 4CC, with the 64-bit `largesize` and
//! `size == 0` (extends to the end of the enclosing region) variants.

use vstd::prelude::*;

use super::be::{be32, be64, lemma_be32_window, lemma_u32_roundtrip, lemma_u64_roundtrip, push_all, push_u32, push_u64, read_u32, read_u64, u32_bytes, u64_bytes};
use super::error::Mp4Error;

verus! {

/// Four-character box type.
#[derive(Clone, Copy, PartialEq, Eq, Debug, Hash)]
pub struct FourCc(pub [u8; 4]);

/// The four bytes `s[p..p + 4]` taken as a box type.
pub open spec fn kind_at(s: Seq<u8>, p: int) -> FourCc {
    FourCc([s[p], s[p + 1], s[p + 2], s[p + 3]])
}

impl FourCc {
    pub fn new(s: &[u8; 4]) -> (r: Self)
        ensures
            r.0 == *s,
    {
        FourCc(*s)
    }

    /// The four bytes of the type, in order.
    pub open spec fn bytes(self) -> Seq<u8> {
        self.0@
    }

    /// Same type as `other`, byte for byte.
    pub fn is(&self, other: &FourCc) -> (r: bool)
        ensures
            r == (*self == *other),
    {
        let r = self.0[0] == other.0[0] && self.0[1] == other.0[1] && self.0[2] == other.0[2]
            && self.0[3] == other.0[3];
        proof {
            broadcast use vstd::array::group_array_axioms;

            if r {
                assert(self.0 =~= other.0);
            }
        }
        r
    }
}

/// A box type is determined by its four bytes.
pub proof fn lemma_kind_bytes(a: FourCc, b: FourCc)
    ensures
        a.bytes() == b.bytes() <==> a == b,
        a.bytes().len() == 4,
        a == kind_at(a.bytes(), 0),
{
    broadcast use vstd::array::group_array_axioms;

    if a.bytes() == b.bytes() {
        assert(a.0 =~= b.0);
    }
    assert(a.0 =~= kind_at(a.bytes(), 0).0);
}

/// A parsed box header plus where it sits.
#[derive(Debug, Clone, Copy, PartialEq, Eq)]
pub struct BoxHeader {
    pub kind: FourCc,
    /// Absolute offset of the first byte of the size field.
    pub offset: u64,
    /// Total box size including header. Resolved for the `size == 0` case.
    pub size: u64,
    /// Header length: 8, or 16 when `largesize` is used.
    pub header_len: u8,
}

impl BoxHeader {
    /// What every header that the parser returns satisfies.
    pub open spec fn wf(self) -> bool {
        &&& self.header_len == 8 || self.header_len == 16
        &&& self.header_len <= self.size
        &&& self.offset + self.size <= u64::MAX
    }

    /// Offset of the first payload byte, as a mathematical integer.
    pub open spec fn payload(self) -> int {
        self.offset + self.header_len
    }

    /// Offset one past the last byte, as a mathematical integer.
    pub open spec fn end_pos(self) -> int {
        self.offset + self.size
    }

    /// Absolute offset of the first payload byte.
    pub fn payload_offset(&self) -> (r: u64)
        requires
            self.offset + self.header_len <= u64::MAX,
        ensures
            r == self.payload(),
    {
        self.offset + self.header_len as u64
    }

    /// Absolute offset one past the last byte of the box.
    pub fn end(&self) -> (r: u64)
        requires
            self.offset + self.size <= u64::MAX,
        ensures
            r == self.end_pos(),
    {
        self.offset + self.size
    }

    /// Decode the header from `data`, the bytes found at `offset` (at least
    /// the first 16 of them where there are that many). `limit` is the end of
    /// the enclosing region (parent box end or file length); it resolves
    /// `size == 0` and bounds the box. Fewer than 8 bytes means end of input.
    pub fn read(data: &[u8], offset: u64, limit: u64) -> (r: Result<Option<BoxHeader>, Mp4Error>)
        ensures
            r == spec_read(data@, offset, limit),
    {
        if data.len() < 8 {
            return Ok(None);
        }
        let size32 = read_u32(data, 0);
        let kind = FourCc([data[4], data[5], data[6], data[7]]);
        let size: u64;
        let header_len: u8;
        if size32 == 0 {
            size = if limit >= offset {
                limit - offset
            } else {
                0
            };
            header_len = 8;
        } else if size32 == 1 {
            if data.len() < 16 {
                return Err(Mp4Error::TruncatedHeader { kind, offset });
            }
            size = read_u64(data, 8);
            header_len = 16;
        } else {
            size = size32 as u64;
            header_len = 8;
        }
        if size < header_len as u64 {
            return Err(Mp4Error::InvalidSize { kind, offset, size });
        }
        if size > limit || offset > limit - size {
            return Err(Mp4Error::PastParent { kind, offset, size, limit });
        }
        Ok(Some(BoxHeader { kind, offset, size, header_len }))
    }

    /// Parse a header from an in-memory buffer. `pos` and `limit` are indices
    /// into `buf`; the returned `offset` is `pos`.
    pub fn parse(buf: &[u8], pos: usize, limit: usize) -> (r: Result<Option<BoxHeader>, Mp4Error>)
        ensures
            r == spec_parse(buf@, pos as int, limit as int),
    {
        let limit = if limit < buf.len() {
            limit
        } else {
            buf.len()
        };
        if pos >= limit {
            return Ok(None);
        }
        let window = vstd::slice::slice_subrange(buf, pos, limit);
        Self::read(window, pos as u64, limit as u64)
    }

    /// Byte range of this box within a buffer it was parsed from.
    pub fn range(&self) -> (r: core::ops::Range<usize>)
        requires
            self.offset + self.size <= usize::MAX,
        ensures
            r.start == self.offset,
            r.end == self.end_pos(),
    {
        let start = self.offset as usize;
        let end = (self.offset + self.size) as usize;
        start..end
    }
}

/// The header decoded from the bytes `data` found at `offset` within a region
/// ending at `limit`.
pub open spec fn spec_read(data: Seq<u8>, offset: u64, limit: u64) -> Result<
    Option<BoxHeader>,
    Mp4Error,
> {
    if data.len() < 8 {
        Ok(None)
    } else {
        let size32 = be32(data, 0);
        let kind = kind_at(data, 4);
        if size32 == 1 && data.len() < 16 {
            Err(Mp4Error::TruncatedHeader { kind, offset })
        } else {
            let size: int = if size32 == 0 {
                if limit >= offset {
                    limit - offset
                } else {
                    0
                }
            } else if size32 == 1 {
                be64(data, 8)
            } else {
                size32
            };
            let header_len: int = if size32 == 1 {
                16
            } else {
                8
            };
            if size < header_len {
                Err(Mp4Error::InvalidSize { kind, offset, size: size as u64 })
            } else if offset + size > limit {
                Err(Mp4Error::PastParent { kind, offset, size: size as u64, limit })
            } else {
                Ok(
                    Some(
                        BoxHeader {
                            kind,
                            offset,
                            size: size as u64,
                            header_len: header_len as u8,
                        },
                    ),
                )
            }
        }
    }
}

/// The smaller of two integers.
pub open spec fn min(a: int, b: int) -> int {
    if a < b {
        a
    } else {
        b
    }
}

/// The header of the box starting at `buf[pos]`, inside a region ending at
/// `limit` (clamped to the buffer); `None` once `pos` reaches that end.
pub open spec fn spec_parse(buf: Seq<u8>, pos: int, limit: int) -> Result<Option<BoxHeader>, Mp4Error> {
    let lim = min(limit, buf.len() as int);
    if pos >= lim {
        Ok(None)
    } else {
        spec_read(buf.subrange(pos, lim), pos as u64, lim as u64)
    }
}

/// A decoded header is well formed and lies inside its region.
pub proof fn lemma_read_ok(data: Seq<u8>, offset: u64, limit: u64)
    ensures
        spec_read(data, offset, limit) matches Ok(Some(h)) ==> {
            &&& h.wf()
            &&& h.offset == offset
            &&& h.end_pos() <= limit
            &&& h.size >= 8
            &&& h.kind == kind_at(data, 4)
        },
{
}

/// A header parsed from a buffer starts at `pos`, is well formed and ends
/// inside both the region and the buffer.
pub proof fn lemma_parse_ok(buf: Seq<u8>, pos: int, limit: int)
    requires
        0 <= pos,
        buf.len() <= u64::MAX,
    ensures
        spec_parse(buf, pos, limit) matches Ok(Some(h)) ==> {
            &&& h.wf()
            &&& h.offset == pos
            &&& pos < h.end_pos() <= min(limit, buf.len() as int)
            &&& h.end_pos() <= limit
            &&& h.end_pos() <= buf.len()
            &&& h.size >= 8
            &&& h.kind == kind_at(buf, pos + 4)
        },
{
    let lim = min(limit, buf.len() as int);
    if pos < lim {
        lemma_read_ok(buf.subrange(pos, lim), pos as u64, lim as u64);
    }
}

/// The consecutive sibling boxes found in `buf[pos..end]`.
pub open spec fn spec_children(buf: Seq<u8>, pos: int, end: int) -> Result<Seq<BoxHeader>, Mp4Error>
    decreases end - pos,
    when 0 <= pos && buf.len() <= u64::MAX
{
    match spec_parse(buf, pos, end) {
        Err(e) => Err(e),
        Ok(None) => Ok(Seq::empty()),
        Ok(Some(h)) => {
            proof {
                lemma_parse_ok(buf, pos, end);
            }
            match spec_children(buf, h.end_pos(), end) {
                Err(e) => Err(e),
                Ok(rest) => Ok(seq![h] + rest),
            }
        },
    }
}

/// Parse consecutive sibling boxes in `buf[start..end]`.
pub fn children(buf: &[u8], start: usize, end: usize) -> (r: Result<Vec<BoxHeader>, Mp4Error>)
    ensures
        match r {
            Ok(v) => spec_children(buf@, start as int, end as int) == Ok::<_, Mp4Error>(v@),
            Err(e) => spec_children(buf@, start as int, end as int) == Err::<Seq<BoxHeader>, _>(e),
        },
{
    let _ = buf.len();
    let mut out: Vec<BoxHeader> = Vec::new();
    let mut pos = start;
    loop
        invariant
            buf@.len() <= usize::MAX,
            spec_children(buf@, start as int, end as int) == match spec_children(
                buf@,
                pos as int,
                end as int,
            ) {
                Ok(rest) => Ok(out@ + rest),
                Err(e) => Err(e),
            },
        decreases end - pos,
    {
        proof {
            lemma_parse_ok(buf@, pos as int, end as int);
        }
        match BoxHeader::parse(buf, pos, end) {
            Err(e) => {
                return Err(e);
            },
            Ok(None) => {
                assert(out@ + Seq::<BoxHeader>::empty() =~= out@);
                return Ok(out);
            },
            Ok(Some(h)) => {
                let ghost old_out = out@;
                pos = h.end() as usize;
                out.push(h);
                proof {
                    match spec_children(buf@, pos as int, end as int) {
                        Ok(rest) => {
                            assert(old_out + (seq![h] + rest) =~= out@ + rest);
                        },
                        Err(e) => {},
                    }
                }
            },
        }
    }
}

/// The bytes of a box of type `kind` holding `body`: a 32-bit size field,
/// or the `largesize` form when `header_len` is 16 or the size does not fit
/// in 32 bits.
pub open spec fn box_bytes(kind: FourCc, header_len: u8, body: Seq<u8>) -> Seq<u8> {
    if header_len == 16 || body.len() + 8 > u32::MAX {
        u32_bytes(1) + kind.bytes() + u64_bytes(body.len() + 16int) + body
    } else {
        u32_bytes(body.len() + 8int) + kind.bytes() + body
    }
}

/// Serialize a box: header + body. Uses a 16-byte `largesize` header when
/// `header_len` is 16 or the size does not fit in 32 bits.
pub fn with_header(kind: FourCc, header_len: u8, body: &[u8]) -> (out: Vec<u8>)
    requires
        body@.len() + 16 <= u64::MAX,
    ensures
        out@ == box_bytes(kind, header_len, body@),
{
    let size32 = body.len() as u64 + 8;
    let mut out: Vec<u8> = Vec::new();
    if header_len == 16 || size32 > u32::MAX as u64 {
        push_u32(&mut out, 1);
        push_all(&mut out, &kind.0);
        push_u64(&mut out, body.len() as u64 + 16);
    } else {
        push_u32(&mut out, size32 as u32);
        push_all(&mut out, &kind.0);
    }
    push_all(&mut out, body);
    proof {
        assert(out@ =~= box_bytes(kind, header_len, body@));
    }
    out
}

/// Length of the header that `box_bytes(kind, header_len, body)` writes.
pub open spec fn written_header_len(header_len: u8, body: Seq<u8>) -> int {
    if header_len == 16 || body.len() + 8 > u32::MAX {
        16
    } else {
        8
    }
}

/// Shape of a serialized box: its header length, its total length, and the
/// body found after the header.
pub proof fn lemma_box_bytes_shape(kind: FourCc, header_len: u8, body: Seq<u8>)
    ensures
        box_bytes(kind, header_len, body).len() == body.len() + written_header_len(
            header_len,
            body,
        ),
        box_bytes(kind, header_len, body).subrange(
            written_header_len(header_len, body),
            box_bytes(kind, header_len, body).len() as int,
        ) == body,
        box_bytes(kind, header_len, body).subrange(0, 8) == u32_bytes(
            if written_header_len(header_len, body) == 16 {
                1
            } else {
                body.len() + 8int
            },
        ) + kind.bytes(),
{
    lemma_kind_bytes(kind, kind);
    let b = box_bytes(kind, header_len, body);
    let hl = written_header_len(header_len, body);
    if hl == 16 {
        assert(b.subrange(16, b.len() as int) =~= body);
        assert(b.subrange(0, 8) =~= u32_bytes(1) + kind.bytes());
    } else {
        assert(b.subrange(8, b.len() as int) =~= body);
        assert(b.subrange(0, 8) =~= u32_bytes(body.len() + 8int) + kind.bytes());
    }
}

/// A serialized box placed at `pos` in a buffer parses back as a header of
/// its type, at `pos`, spanning exactly the serialized bytes.
pub proof fn lemma_parse_box_bytes(
    buf: Seq<u8>,
    pos: int,
    limit: int,
    kind: FourCc,
    header_len: u8,
    body: Seq<u8>,
)
    requires
        0 <= pos,
        buf.len() <= u64::MAX,
        body.len() + 16 <= u64::MAX,
        pos + box_bytes(kind, header_len, body).len() <= limit,
        pos + box_bytes(kind, header_len, body).len() <= buf.len(),
        buf.subrange(pos, pos + box_bytes(kind, header_len, body).len()) == box_bytes(
            kind,
            header_len,
            body,
        ),
    ensures
        spec_parse(buf, pos, limit) == Ok::<_, Mp4Error>(
            Some(
                BoxHeader {
                    kind,
                    offset: pos as u64,
                    size: box_bytes(kind, header_len, body).len() as u64,
                    header_len: written_header_len(header_len, body) as u8,
                },
            ),
        ),
{
    let b = box_bytes(kind, header_len, body);
    let hl = written_header_len(header_len, body);
    lemma_box_bytes_shape(kind, header_len, body);
    lemma_kind_bytes(kind, kind);
    let lim = min(limit, buf.len() as int);
    let data = buf.subrange(pos, lim);
    assert(data.subrange(0, b.len() as int) =~= b);
    assert(data.subrange(0, 4) =~= b.subrange(0, 4));
    lemma_be32_window(data, 0, b, 0);
    assert(b.subrange(0, 4) =~= b.subrange(0, 8).subrange(0, 4));
    if hl == 16 {
        lemma_u32_roundtrip(1);
        assert(b.subrange(0, 8).subrange(0, 4) =~= u32_bytes(1));
        assert(b.subrange(0, 4) =~= u32_bytes(1).subrange(0, 4));
        lemma_be32_window(b, 0, u32_bytes(1), 0);
        lemma_u64_roundtrip(body.len() + 16int);
        assert(b.subrange(8, 16) =~= u64_bytes(body.len() + 16int));
        assert(b.subrange(8, 12) =~= u64_bytes(body.len() + 16int).subrange(0, 4));
        assert(b.subrange(12, 16) =~= u64_bytes(body.len() + 16int).subrange(4, 8));
        lemma_be32_window(b, 8, u64_bytes(body.len() + 16int), 0);
        lemma_be32_window(b, 12, u64_bytes(body.len() + 16int), 4);
        assert(data.subrange(8, 12) =~= b.subrange(8, 12));
        assert(data.subrange(12, 16) =~= b.subrange(12, 16));
        lemma_be32_window(data, 8, b, 8);
        lemma_be32_window(data, 12, b, 12);
    } else {
        lemma_u32_roundtrip(body.len() + 8int);
        assert(b.subrange(0, 8).subrange(0, 4) =~= u32_bytes(body.len() + 8int));
        assert(b.subrange(0, 4) =~= u32_bytes(body.len() + 8int).subrange(0, 4));
        lemma_be32_window(b, 0, u32_bytes(body.len() + 8int), 0);
    }
    assert(kind_at(data, 4).0 =~= kind.0) by {
        broadcast use vstd::array::group_array_axioms;

        assert(data[4] == b[4]);
        assert(data[5] == b[5]);
        assert(data[6] == b[6]);
        assert(data[7] == b[7]);
        assert(b[4] == kind.bytes()[0]);
        assert(b[5] == kind.bytes()[1]);
        assert(b[6] == kind.bytes()[2]);
        assert(b[7] == kind.bytes()[3]);
    }
}

/// Reading back what `with_header` wrote gives the box's type, its total
/// length as size, the header length actually used, and the body as payload.
pub proof fn law_with_header_parses_back(kind: FourCc, header_len: u8, body: Seq<u8>)
    requires
        body.len() + 16 <= u64::MAX,
    ensures
        ({
            let b = box_bytes(kind, header_len, body);
            let h = BoxHeader {
                kind,
                offset: 0,
                size: b.len() as u64,
                header_len: written_header_len(header_len, body) as u8,
            };
            &&& spec_parse(b, 0, b.len() as int) == Ok::<_, Mp4Error>(Some(h))
            &&& b.subrange(h.payload(), h.end_pos()) == body
            &&& (header_len == 16 ==> h.header_len == 16)
            &&& (header_len != 16 && body.len() + 8 <= u32::MAX ==> h.header_len == 8)
        }),
{
    let b = box_bytes(kind, header_len, body);
    lemma_box_bytes_shape(kind, header_len, body);
    assert(b.subrange(0, b.len() as int) =~= b);
    lemma_parse_box_bytes(b, 0, b.len() as int, kind, header_len, body);
}

} // verus!
