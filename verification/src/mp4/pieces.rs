//! Byte sequences made of whole boxes laid end to end, and how they parse
//! back: the reasoning behind the laws about rebuilt boxes.

use vstd::prelude::*;

use super::be::{be32, be64, lemma_be32_window, lemma_u32_roundtrip, lemma_u64_roundtrip, u32_bytes, u64_bytes};
use super::box_header::{
    box_bytes, kind_at, lemma_box_bytes_shape, lemma_kind_bytes, lemma_parse_ok, min, spec_children,
    spec_parse, spec_read, written_header_len, BoxHeader, FourCc,
};
use super::error::Mp4Error;

verus! {

/// `b` is exactly one box whose size field states its length (not the
/// `size == 0` form).
pub open spec fn one_box(b: Seq<u8>) -> bool {
    &&& b.len() >= 8
    &&& b.len() <= u64::MAX
    &&& (be32(b, 0) == 1 && b.len() >= 16 && be64(b, 8) == b.len()) || (be32(b, 0) >= 8 && be32(b, 0)
        == b.len())
}

/// `b` is one box in the `size == 0` form: it extends to the end of
/// whatever holds it, so it stands only last.
pub open spec fn zero_box(b: Seq<u8>) -> bool {
    &&& b.len() >= 8
    &&& b.len() <= u64::MAX
    &&& be32(b, 0) == 0
}

/// The header of the box `b` when it sits at `pos`.
pub open spec fn header_of(b: Seq<u8>, pos: int) -> BoxHeader {
    BoxHeader {
        kind: kind_at(b, 4),
        offset: pos as u64,
        size: b.len() as u64,
        header_len: if be32(b, 0) == 1 {
            16
        } else {
            8
        },
    }
}

/// A whole box found at `pos` in a buffer parses as itself.
pub proof fn lemma_parse_one_box(buf: Seq<u8>, pos: int, limit: int, b: Seq<u8>)
    requires
        one_box(b),
        0 <= pos,
        buf.len() <= u64::MAX,
        pos + b.len() <= limit,
        pos + b.len() <= buf.len(),
        buf.subrange(pos, pos + b.len()) == b,
    ensures
        spec_parse(buf, pos, limit) == Ok::<_, Mp4Error>(Some(header_of(b, pos))),
        header_of(b, pos).wf(),
{
    let lim = min(limit, buf.len() as int);
    let data = buf.subrange(pos, lim);
    assert(data.subrange(0, 4) =~= b.subrange(0, 4));
    lemma_be32_window(data, 0, b, 0);
    assert(kind_at(data, 4) =~= kind_at(b, 4)) by {
        assert(data[4] == b[4]);
        assert(data[5] == b[5]);
        assert(data[6] == b[6]);
        assert(data[7] == b[7]);
    }
    if be32(b, 0) == 1 {
        assert(data.subrange(8, 12) =~= b.subrange(8, 12));
        assert(data.subrange(12, 16) =~= b.subrange(12, 16));
        lemma_be32_window(data, 8, b, 8);
        lemma_be32_window(data, 12, b, 12);
    }
}

/// What `box_bytes` writes is one whole box of the given type.
pub proof fn lemma_box_bytes_one(kind: FourCc, header_len: u8, body: Seq<u8>, pos: int)
    requires
        body.len() + 16 <= u64::MAX,
        0 <= pos,
    ensures
        one_box(box_bytes(kind, header_len, body)),
        header_of(box_bytes(kind, header_len, body), pos) == (BoxHeader {
            kind,
            offset: pos as u64,
            size: box_bytes(kind, header_len, body).len() as u64,
            header_len: written_header_len(header_len, body) as u8,
        }),
{
    let b = box_bytes(kind, header_len, body);
    lemma_box_bytes_shape(kind, header_len, body);
    lemma_kind_bytes(kind, kind);
    if written_header_len(header_len, body) == 16 {
        lemma_u32_roundtrip(1);
        assert(b.subrange(0, 4) =~= u32_bytes(1).subrange(0, 4));
        lemma_be32_window(b, 0, u32_bytes(1), 0);
        lemma_u64_roundtrip(body.len() + 16int);
        assert(b.subrange(8, 12) =~= u64_bytes(body.len() + 16int).subrange(0, 4));
        assert(b.subrange(12, 16) =~= u64_bytes(body.len() + 16int).subrange(4, 8));
        lemma_be32_window(b, 8, u64_bytes(body.len() + 16int), 0);
        lemma_be32_window(b, 12, u64_bytes(body.len() + 16int), 4);
    } else {
        lemma_u32_roundtrip(body.len() + 8int);
        assert(b.subrange(0, 4) =~= u32_bytes(body.len() + 8int).subrange(0, 4));
        lemma_be32_window(b, 0, u32_bytes(body.len() + 8int), 0);
    }
    assert(kind_at(b, 4).0 =~= kind.0) by {
        broadcast use vstd::array::group_array_axioms;

        assert(b[4] == kind.bytes()[0]);
        assert(b[5] == kind.bytes()[1]);
        assert(b[6] == kind.bytes()[2]);
        assert(b[7] == kind.bytes()[3]);
    }
}

/// A box parsed from a buffer is one whole box, or, where its size field is
/// 0, a box in the `size == 0` form that ends where the region does; either
/// way it has the same type, size and header length wherever it is copied.
pub proof fn lemma_parsed_one_box(buf: Seq<u8>, pos: int, limit: int, q: int)
    requires
        0 <= pos,
        0 <= q,
        buf.len() <= u64::MAX,
        spec_parse(buf, pos, limit) is Ok,
        spec_parse(buf, pos, limit).unwrap() is Some,
    ensures
        ({
            let h = spec_parse(buf, pos, limit).unwrap().unwrap();
            let b = buf.subrange(h.offset as int, h.end_pos());
            &&& be32(b, 0) == be32(buf, pos)
            &&& be32(buf, pos) != 0 ==> one_box(b)
            &&& be32(buf, pos) == 0 ==> zero_box(b) && h.end_pos() == min(limit, buf.len() as int)
            &&& header_of(b, q) == BoxHeader { offset: q as u64, ..h }
        }),
{
    lemma_parse_ok(buf, pos, limit);
    let h = spec_parse(buf, pos, limit).unwrap().unwrap();
    let lim = min(limit, buf.len() as int);
    let data = buf.subrange(pos, lim);
    let b = buf.subrange(pos, h.end_pos());
    assert(b.subrange(0, 4) =~= data.subrange(0, 4));
    lemma_be32_window(b, 0, data, 0);
    assert(data.subrange(0, 4) =~= buf.subrange(pos, pos + 4));
    lemma_be32_window(data, 0, buf, pos);
    assert(kind_at(b, 4) =~= kind_at(data, 4)) by {
        assert(b[4] == data[4]);
        assert(b[5] == data[5]);
        assert(b[6] == data[6]);
        assert(b[7] == data[7]);
    }
    if be32(data, 0) == 1 {
        assert(b.subrange(8, 12) =~= data.subrange(8, 12));
        assert(b.subrange(12, 16) =~= data.subrange(12, 16));
        lemma_be32_window(b, 8, data, 8);
        lemma_be32_window(b, 12, data, 12);
    }
}

/// A box in the `size == 0` form found at `pos`, ending where the region
/// (or the buffer) does, parses as itself.
pub proof fn lemma_parse_zero_box(buf: Seq<u8>, pos: int, limit: int, b: Seq<u8>)
    requires
        zero_box(b),
        0 <= pos,
        buf.len() <= u64::MAX,
        pos + b.len() == min(limit, buf.len() as int),
        buf.subrange(pos, pos + b.len()) == b,
    ensures
        spec_parse(buf, pos, limit) == Ok::<_, Mp4Error>(Some(header_of(b, pos))),
        header_of(b, pos).wf(),
{
    let lim = min(limit, buf.len() as int);
    let data = buf.subrange(pos, lim);
    assert(data =~= b);
    assert(kind_at(data, 4) =~= kind_at(b, 4));
}

/// The boxes `ps` laid end to end.
pub open spec fn flat(ps: Seq<Seq<u8>>) -> Seq<u8>
    decreases ps.len(),
{
    if ps.len() == 0 {
        Seq::empty()
    } else {
        ps[0] + flat(ps.drop_first())
    }
}

/// Headers of the boxes `ps` laid end to end from `pos`.
pub open spec fn headers_of(ps: Seq<Seq<u8>>, pos: int) -> Seq<BoxHeader>
    decreases ps.len(),
{
    if ps.len() == 0 {
        Seq::empty()
    } else {
        seq![header_of(ps[0], pos)] + headers_of(ps.drop_first(), pos + ps[0].len())
    }
}

/// Every piece is one whole box.
pub open spec fn all_boxes(ps: Seq<Seq<u8>>) -> bool {
    forall|i: int| 0 <= i < ps.len() ==> one_box(#[trigger] ps[i])
}

/// Every piece is one whole box, but the last, which may instead be a box
/// in the `size == 0` form.
pub open spec fn laid_boxes(ps: Seq<Seq<u8>>) -> bool {
    forall|i: int| 0 <= i < ps.len() ==> one_box(#[trigger] ps[i]) || (i == ps.len() - 1 && zero_box(ps[i]))
}

/// Laying out a concatenation of lists of boxes.
pub proof fn lemma_flat_concat(a: Seq<Seq<u8>>, b: Seq<Seq<u8>>)
    ensures
        flat(a + b) == flat(a) + flat(b),
    decreases a.len(),
{
    if a.len() == 0 {
        assert(a + b =~= b);
        assert(flat(a) + flat(b) =~= flat(b));
    } else {
        assert((a + b).drop_first() =~= a.drop_first() + b);
        lemma_flat_concat(a.drop_first(), b);
        assert(flat(a + b) =~= flat(a) + flat(b));
    }
}

/// Headers over a concatenation of lists of boxes.
pub proof fn lemma_headers_concat(a: Seq<Seq<u8>>, b: Seq<Seq<u8>>, pos: int)
    ensures
        headers_of(a + b, pos) == headers_of(a, pos) + headers_of(b, pos + flat(a).len()),
    decreases a.len(),
{
    if a.len() == 0 {
        assert(a + b =~= b);
        assert(headers_of(a, pos) + headers_of(b, pos) =~= headers_of(b, pos));
    } else {
        assert((a + b).drop_first() =~= a.drop_first() + b);
        lemma_headers_concat(a.drop_first(), b, pos + a[0].len());
        assert(headers_of(a + b, pos) =~= headers_of(a, pos) + headers_of(b, pos + flat(a).len()));
    }
}

/// Headers of a list of boxes: one per box, each box's type.
pub proof fn lemma_headers_kinds(ps: Seq<Seq<u8>>, pos: int)
    ensures
        headers_of(ps, pos).len() == ps.len(),
        forall|i: int|
            0 <= i < ps.len() ==> (#[trigger] headers_of(ps, pos)[i]).kind == kind_at(ps[i], 4),
    decreases ps.len(),
{
    if ps.len() > 0 {
        lemma_headers_kinds(ps.drop_first(), pos + ps[0].len());
        let hs = headers_of(ps, pos);
        assert forall|i: int| 0 <= i < ps.len() implies (#[trigger] hs[i]).kind == kind_at(
            ps[i],
            4,
        ) by {
            if i > 0 {
                assert(hs[i] == headers_of(ps.drop_first(), pos + ps[0].len())[i - 1]);
                assert(ps[i] == ps.drop_first()[i - 1]);
            }
        }
    }
}

/// Where box `m` of a list sits in the laid-out bytes, and its header.
pub proof fn lemma_flat_at(ps: Seq<Seq<u8>>, m: int, pos: int)
    requires
        0 <= m < ps.len(),
    ensures
        flat(ps.take(m)).len() + ps[m].len() <= flat(ps).len(),
        flat(ps).subrange(flat(ps.take(m)).len() as int, flat(ps.take(m)).len() + ps[m].len() as int)
            == ps[m],
        headers_of(ps, pos)[m] == header_of(ps[m], pos + flat(ps.take(m)).len()),
{
    assert(ps =~= ps.take(m) + (seq![ps[m]] + ps.skip(m + 1)));
    lemma_flat_concat(ps.take(m), seq![ps[m]] + ps.skip(m + 1));
    lemma_flat_concat(seq![ps[m]], ps.skip(m + 1));
    assert(flat(seq![ps[m]]) =~= ps[m]) by {
        assert(seq![ps[m]].drop_first() =~= Seq::<Seq<u8>>::empty());
        assert(flat(Seq::<Seq<u8>>::empty()) == Seq::<u8>::empty());
        assert(flat(seq![ps[m]]) == ps[m] + flat(Seq::<Seq<u8>>::empty()));
    }
    lemma_headers_concat(ps.take(m), seq![ps[m]] + ps.skip(m + 1), pos);
    lemma_headers_kinds(ps.take(m), pos);
    let l = flat(ps.take(m)).len() as int;
    assert(flat(ps).subrange(l, l + ps[m].len()) =~= ps[m]);
    assert(headers_of(seq![ps[m]] + ps.skip(m + 1), pos + l)[0] == header_of(ps[m], pos + l)) by {
        assert((seq![ps[m]] + ps.skip(m + 1))[0] == ps[m]);
    }
}

/// Boxes laid end to end in a buffer parse back as their headers, in order.
pub proof fn lemma_children_flat(buf: Seq<u8>, pos: int, ps: Seq<Seq<u8>>)
    requires
        laid_boxes(ps),
        0 <= pos,
        buf.len() <= u64::MAX,
        pos + flat(ps).len() <= buf.len(),
        buf.subrange(pos, pos + flat(ps).len()) == flat(ps),
    ensures
        spec_children(buf, pos, pos + flat(ps).len()) == Ok::<_, Mp4Error>(headers_of(ps, pos)),
    decreases ps.len(),
{
    let end = pos + flat(ps).len();
    if ps.len() == 0 {
        lemma_parse_ok(buf, pos, end);
    } else {
        let b = ps[0];
        let rest = ps.drop_first();
        assert(flat(ps) == b + flat(rest));
        assert(buf.subrange(pos, pos + b.len()) =~= flat(ps).subrange(0, b.len() as int));
        assert(flat(ps).subrange(0, b.len() as int) =~= b);
        if one_box(b) {
            lemma_parse_one_box(buf, pos, end, b);
        } else {
            assert(rest.len() == 0);
            assert(rest =~= Seq::<Seq<u8>>::empty());
            assert(flat(rest) == Seq::<u8>::empty());
            lemma_parse_zero_box(buf, pos, end, b);
        }
        assert(laid_boxes(rest)) by {
            assert forall|i: int| 0 <= i < rest.len() implies one_box(#[trigger] rest[i]) || (i == rest.len()
                - 1 && zero_box(rest[i])) by {
                assert(rest[i] == ps[i + 1]);
            }
        }
        assert(buf.subrange(pos + b.len(), pos + b.len() + flat(rest).len()) =~= flat(ps).subrange(
            b.len() as int,
            flat(ps).len() as int,
        ));
        assert(flat(ps).subrange(b.len() as int, flat(ps).len() as int) =~= flat(rest));
        lemma_children_flat(buf, pos + b.len(), rest);
        assert(header_of(b, pos).end_pos() == pos + b.len());
    }
}

} // verus!
