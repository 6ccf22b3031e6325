//! Why a rebuilt `moov` holds exactly the new cover: the rebuilt boxes are
//! whole boxes laid end to end, so walking `udta/meta/ilst` in the output
//! meets the rebuilt chain and, at its bottom, the new `covr` alone.

use vstd::prelude::*;

use super::be::be32;
use super::box_header::{
    box_bytes, kind_at, lemma_box_bytes_shape, written_header_len, lemma_parse_ok, spec_children, spec_parse, BoxHeader, FourCc,
};
use super::error::Mp4Error;
use super::finder::{
    lemma_moov_header_ok, moov, spec_find_covr, spec_moov_header, covers_path, covr, descend, descend_list, has_kind, hdlr, ilst, lemma_children_ok, meta, only_kind,
    spec_prefix_len,
    spec_container_children, then_append, udta, Gather,
};
use super::pieces::{
    all_boxes, laid_boxes, zero_box, flat, header_of, headers_of, lemma_box_bytes_one, lemma_children_flat, lemma_flat_at,
    lemma_flat_concat, lemma_headers_kinds, lemma_parse_one_box, lemma_parsed_one_box, one_box,
};
use super::rebuild::{
    spec_replace_cover,     lemma_sum_sizes_without, lemma_children_fill, lemma_first_of, first_of, growth, lemma_rebuild_len, spec_rebuild, hdlr_body, hdlr_bytes, lemma_synthesize_len, spans, spec_synthesize,
    without_kind,
};

use super::tables_law::{lemma_no_cover_moved, moved};

verus! {

/// The bytes of each of the boxes `ks` of `buf`.
pub open spec fn kid_bytes(buf: Seq<u8>, ks: Seq<BoxHeader>) -> Seq<Seq<u8>> {
    ks.map_values(|k: BoxHeader| buf.subrange(k.offset as int, k.end_pos()))
}

/// The spans of a list of boxes are those boxes laid end to end.
pub proof fn lemma_spans_flat(buf: Seq<u8>, ks: Seq<BoxHeader>)
    ensures
        spans(buf, ks) == flat(kid_bytes(buf, ks)),
    decreases ks.len(),
{
    if ks.len() > 0 {
        let d = ks.drop_last();
        lemma_spans_flat(buf, d);
        let x = buf.subrange(ks.last().offset as int, ks.last().end_pos());
        assert(kid_bytes(buf, ks) =~= kid_bytes(buf, d) + seq![x]);
        lemma_flat_concat(kid_bytes(buf, d), seq![x]);
        assert(flat(seq![x]) =~= x) by {
            assert(seq![x].drop_first() =~= Seq::<Seq<u8>>::empty());
            assert(flat(Seq::<Seq<u8>>::empty()) == Seq::<u8>::empty());
            assert(flat(seq![x]) == x + flat(Seq::<Seq<u8>>::empty()));
        }
    } else {
        assert(kid_bytes(buf, ks) =~= Seq::<Seq<u8>>::empty());
    }
}

/// Each sibling of a successful scan is what a parse at its offset gives.
pub proof fn lemma_children_parsed(buf: Seq<u8>, pos: int, end: int)
    requires
        0 <= pos,
        buf.len() <= u64::MAX,
    ensures
        spec_children(buf, pos, end) matches Ok(s) ==> forall|i: int|
            0 <= i < s.len() ==> spec_parse(buf, (#[trigger] s[i]).offset as int, end) == Ok::<
                _,
                Mp4Error,
            >(Some(s[i])),
    decreases end - pos,
{
    lemma_parse_ok(buf, pos, end);
    match spec_parse(buf, pos, end) {
        Ok(Some(h)) => {
            lemma_children_parsed(buf, h.end_pos(), end);
            match spec_children(buf, h.end_pos(), end) {
                Ok(rest) => {
                    let s = seq![h] + rest;
                    assert forall|i: int| 0 <= i < s.len() implies spec_parse(
                        buf,
                        (#[trigger] s[i]).offset as int,
                        end,
                    ) == Ok::<_, Mp4Error>(Some(s[i])) by {
                        if i > 0 {
                            assert(s[i] == rest[i - 1]);
                        }
                    }
                },
                Err(_) => {},
            }
        },
        _ => {},
    }
}

/// Children are whole boxes, each with its own type, but for one whose size
/// field is 0, which is a box in the `size == 0` form.
pub proof fn lemma_kids_are_boxes(buf: Seq<u8>, hdr: BoxHeader, ks: Seq<BoxHeader>)
    requires
        buf.len() <= u64::MAX,
        hdr.wf(),
        spec_container_children(buf, hdr) is Ok,
        forall|i: int|
            0 <= i < ks.len() ==> spec_container_children(buf, hdr).unwrap().contains(
                #[trigger] ks[i],
            ),
    ensures
        forall|i: int|
            0 <= i < ks.len() ==> {
                &&& be32(buf, ks[i].offset as int) != 0 ==> one_box(#[trigger] kid_bytes(buf, ks)[i])
                &&& be32(buf, ks[i].offset as int) == 0 ==> zero_box(kid_bytes(buf, ks)[i])
                &&& kind_at(kid_bytes(buf, ks)[i], 4) == ks[i].kind
            },
{
    let kids = spec_container_children(buf, hdr).unwrap();
    let start = hdr.payload() + super::finder::spec_prefix_len(buf, hdr);
    lemma_children_parsed(buf, start, hdr.end_pos());
    lemma_children_ok(buf, start, hdr.end_pos());
    assert forall|i: int| 0 <= i < ks.len() implies {
        &&& be32(buf, ks[i].offset as int) != 0 ==> one_box(#[trigger] kid_bytes(buf, ks)[i])
        &&& be32(buf, ks[i].offset as int) == 0 ==> zero_box(kid_bytes(buf, ks)[i])
        &&& kind_at(kid_bytes(buf, ks)[i], 4) == ks[i].kind
    } by {
        let k = ks[i];
        let t = choose|t: int| 0 <= t < kids.len() && kids[t] == k;
        assert(kids[t] == k);
        assert(spec_parse(buf, k.offset as int, hdr.end_pos()) == Ok::<_, Mp4Error>(Some(k)));
        lemma_parsed_one_box(buf, k.offset as int, hdr.end_pos(), 0);
    }
}

/// Only the last of a run of siblings can be in the `size == 0` form.
pub proof fn lemma_zero_kid_last(buf: Seq<u8>, pos: int, end: int)
    requires
        0 <= pos,
        buf.len() <= u64::MAX,
    ensures
        spec_children(buf, pos, end) matches Ok(s) ==> forall|i: int|
            0 <= i < s.len() - 1 ==> be32(buf, (#[trigger] s[i]).offset as int) != 0,
    decreases end - pos,
{
    lemma_parse_ok(buf, pos, end);
    match spec_parse(buf, pos, end) {
        Ok(Some(h)) => {
            lemma_zero_kid_last(buf, h.end_pos(), end);
            lemma_parsed_one_box(buf, pos, end, 0);
            match spec_children(buf, h.end_pos(), end) {
                Ok(rest) => {
                    let s = seq![h] + rest;
                    if be32(buf, pos) == 0 {
                        assert(spec_parse(buf, h.end_pos(), end) == Ok::<_, Mp4Error>(None::<BoxHeader>));
                        assert(rest.len() == 0);
                    }
                    assert forall|i: int| 0 <= i < s.len() - 1 implies be32(buf, (#[trigger] s[i]).offset as int)
                        != 0 by {
                        if i > 0 {
                            assert(s[i] == rest[i - 1]);
                        }
                    }
                },
                Err(_) => {},
            }
        },
        _ => {},
    }
}

/// Box `h` adds nothing to a walk over siblings on `path`: it has another
/// type than the next on the path, or the walk below it finds nothing.
pub open spec fn adds_nothing(buf: Seq<u8>, h: BoxHeader, path: Seq<FourCc>, what: Gather) -> bool {
    h.kind != path[0] || descend(buf, h, path.drop_first(), what) == Ok::<_, Mp4Error>(
        Seq::<BoxHeader>::empty(),
    )
}

/// A walk over siblings of which all but one add nothing is the walk from
/// that one.
pub proof fn lemma_descend_list_one(
    buf: Seq<u8>,
    hs: Seq<BoxHeader>,
    path: Seq<FourCc>,
    what: Gather,
    m: int,
)
    requires
        path.len() > 0,
        0 <= m < hs.len(),
        hs[m].kind == path[0],
        forall|i: int| 0 <= i < hs.len() && i != m ==> #[trigger] adds_nothing(buf, hs[i], path, what),
    ensures
        descend_list(buf, hs, path, what) == descend(buf, hs[m], path.drop_first(), what),
    decreases hs.len(),
{
    let rest = hs.drop_first();
    if m == 0 {
        assert forall|i: int| 0 <= i < rest.len() implies #[trigger] adds_nothing(buf, rest[i], path, what) by {
            assert(rest[i] == hs[i + 1]);
        }
        lemma_descend_list_none(buf, rest, path, what);
        match descend(buf, hs[0], path.drop_first(), what) {
            Ok(a) => {
                assert(a + Seq::<BoxHeader>::empty() =~= a);
            },
            Err(_) => {},
        }
    } else {
        assert(rest[m - 1] == hs[m]);
        assert forall|i: int| 0 <= i < rest.len() && i != m - 1 implies #[trigger] adds_nothing(
            buf,
            rest[i],
            path,
            what,
        ) by {
            assert(rest[i] == hs[i + 1]);
        }
        lemma_descend_list_one(buf, rest, path, what, m - 1);
        assert(adds_nothing(buf, hs[0], path, what));
        match descend_list(buf, rest, path, what) {
            Ok(b) => {
                assert(Seq::<BoxHeader>::empty() + b =~= b);
            },
            Err(_) => {},
        }
    }
}

/// A walk over siblings that all add nothing finds nothing.
pub proof fn lemma_descend_list_none(buf: Seq<u8>, hs: Seq<BoxHeader>, path: Seq<FourCc>, what: Gather)
    requires
        path.len() > 0,
        forall|i: int| 0 <= i < hs.len() ==> #[trigger] adds_nothing(buf, hs[i], path, what),
    ensures
        descend_list(buf, hs, path, what) == Ok::<_, Mp4Error>(Seq::<BoxHeader>::empty()),
    decreases hs.len(),
{
    if hs.len() > 0 {
        let rest = hs.drop_first();
        assert forall|i: int| 0 <= i < rest.len() implies #[trigger] adds_nothing(buf, rest[i], path, what) by {
            assert(rest[i] == hs[i + 1]);
        }
        lemma_descend_list_none(buf, rest, path, what);
        assert(adds_nothing(buf, hs[0], path, what));
        assert(Seq::<BoxHeader>::empty() + Seq::<BoxHeader>::empty() =~= Seq::<BoxHeader>::empty());
    }
}

/// No cover item lies on the walk `path` below box `h` of `buf`: every box
/// the walk enters has children that parse, no `ilst` at its end holds a
/// `covr`, and every `meta` it enters holds the eight bytes that the sniff
/// for its version field reads.
pub open spec fn holds_no_cover(buf: Seq<u8>, h: BoxHeader, path: Seq<FourCc>) -> bool
    decreases path.len(),
{
    &&& (h.kind == meta() ==> h.payload() + 8 <= h.end_pos())
    &&& match spec_container_children(buf, h) {
        Err(_) => false,
        Ok(kids) => if path.len() == 0 {
            forall|i: int| 0 <= i < kids.len() ==> (#[trigger] kids[i]).kind != covr()
        } else {
            forall|i: int|
                0 <= i < kids.len() && (#[trigger] kids[i]).kind == path[0] ==> holds_no_cover(
                    buf,
                    kids[i],
                    path.drop_first(),
                )
        },
    }
}

/// Keeping the boxes of a type absent from a list keeps nothing.
pub proof fn lemma_only_kind_none(ks: Seq<BoxHeader>, kind: FourCc)
    requires
        forall|i: int| 0 <= i < ks.len() ==> (#[trigger] ks[i]).kind != kind,
    ensures
        only_kind(ks, kind) == Seq::<BoxHeader>::empty(),
    decreases ks.len(),
{
    if ks.len() > 0 {
        let rest = ks.drop_first();
        assert forall|i: int| 0 <= i < rest.len() implies (#[trigger] rest[i]).kind != kind by {
            assert(rest[i] == ks[i + 1]);
        }
        lemma_only_kind_none(rest, kind);
    }
}

/// A walk below a box that holds no cover finds nothing.
pub proof fn lemma_no_cover_empty(buf: Seq<u8>, h: BoxHeader, path: Seq<FourCc>)
    requires
        holds_no_cover(buf, h, path),
    ensures
        descend(buf, h, path, Gather::CoverItems) == Ok::<_, Mp4Error>(Seq::<BoxHeader>::empty()),
    decreases path.len(),
{
    let kids = spec_container_children(buf, h).unwrap();
    if path.len() == 0 {
        lemma_only_kind_none(kids, covr());
    } else {
        assert forall|i: int| 0 <= i < kids.len() implies #[trigger] adds_nothing(
            buf,
            kids[i],
            path,
            Gather::CoverItems,
        ) by {
            if kids[i].kind == path[0] {
                lemma_no_cover_empty(buf, kids[i], path.drop_first());
            }
        }
        lemma_descend_list_none(buf, kids, path, Gather::CoverItems);
    }
}

/// Keeping the headers of one type from a list where only the last one has
/// it keeps just the last one.
pub proof fn lemma_only_kind_last(hs: Seq<BoxHeader>, kind: FourCc)
    requires
        hs.len() > 0,
        hs.last().kind == kind,
        forall|i: int| 0 <= i < hs.len() - 1 ==> (#[trigger] hs[i]).kind != kind,
    ensures
        only_kind(hs, kind) == seq![hs.last()],
    decreases hs.len(),
{
    if hs.len() == 1 {
        assert(hs.drop_first() =~= Seq::<BoxHeader>::empty());
        assert(only_kind(Seq::<BoxHeader>::empty(), kind) == Seq::<BoxHeader>::empty());
        assert(hs.last() == hs[0]);
        assert(seq![hs[0]] + Seq::<BoxHeader>::empty() =~= seq![hs[0]]);
    } else {
        let rest = hs.drop_first();
        assert(rest.last() == hs.last());
        assert forall|i: int| 0 <= i < rest.len() - 1 implies (#[trigger] rest[i]).kind != kind by {
            assert(rest[i] == hs[i + 1]);
        }
        lemma_only_kind_last(rest, kind);
    }
}

/// Boxes left after dropping one type do not have it.
pub proof fn lemma_without_kind_kinds(ks: Seq<BoxHeader>, kind: FourCc)
    ensures
        forall|i: int|
            0 <= i < without_kind(ks, kind).len() ==> (#[trigger] without_kind(ks, kind)[i]).kind
                != kind,
    decreases ks.len(),
{
    if ks.len() > 0 {
        lemma_without_kind_kinds(ks.drop_last(), kind);
        let w = without_kind(ks, kind);
        let wd = without_kind(ks.drop_last(), kind);
        assert forall|i: int| 0 <= i < w.len() implies (#[trigger] w[i]).kind != kind by {
            if ks.last().kind != kind && i == w.len() - 1 {
                assert(w[i] == ks.last());
            } else {
                assert(w[i] == wd[i]);
            }
        }
    }
}

/// `path` is the end of the walk `udta/meta/ilst`.
pub open spec fn cover_level(path: Seq<FourCc>) -> bool {
    path.len() <= 3 && path == covers_path().skip(3 - path.len())
}

/// The path below a level is a level too, and the first type on a level
/// path is `udta`, `meta` or `ilst` as the level says.
pub proof fn lemma_cover_level(path: Seq<FourCc>)
    requires
        cover_level(path),
    ensures
        path.len() == 3 ==> path[0] == udta(),
        path.len() == 2 ==> path[0] == meta(),
        path.len() == 1 ==> path[0] == ilst(),
        path.len() > 0 ==> cover_level(path.drop_first()),
{
    if path.len() > 0 {
        assert(path.drop_first() =~= covers_path().skip(3 - (path.len() - 1)));
    }
}

/// The types on the cover path are distinct from each other and from
/// `hdlr` and `covr`.
pub proof fn lemma_cover_kinds()
    ensures
        udta() != meta(),
        udta() != ilst(),
        meta() != ilst(),
        hdlr() != udta(),
        hdlr() != meta(),
        hdlr() != ilst(),
        covr() != ilst(),
        covr() != meta(),
        covr() != udta(),
{
    broadcast use vstd::array::group_array_axioms;

    assert(udta().0[0] != meta().0[0]);
    assert(udta().0[0] != ilst().0[0]);
    assert(meta().0[0] != ilst().0[0]);
    assert(hdlr().0[0] != udta().0[0]);
    assert(hdlr().0[0] != meta().0[0]);
    assert(hdlr().0[0] != ilst().0[0]);
    assert(covr().0[0] != ilst().0[0]);
    assert(covr().0[0] != meta().0[0]);
    assert(covr().0[0] != udta().0[0]);
}

/// A synthesized `ilst` holding only the cover, placed in a buffer, parses
/// as an `ilst` box whose cover items are the cover alone.
#[verifier::spinoff_prover]
pub proof fn lemma_ilst_holds_cover(covr_box: Seq<u8>, out_buf: Seq<u8>, q: int, lim: int) -> (c: int)
    requires
        one_box(covr_box),
        kind_at(covr_box, 4) == covr(),
        covr_box.len() + growth(3) + 16 <= u64::MAX,
        out_buf.len() <= u64::MAX,
        0 <= q,
        q + box_bytes(ilst(), 8, covr_box).len() <= lim,
        q + box_bytes(ilst(), 8, covr_box).len() <= out_buf.len(),
        out_buf.subrange(q, q + box_bytes(ilst(), 8, covr_box).len()) == box_bytes(ilst(), 8, covr_box),
    ensures
        ({
            let s = box_bytes(ilst(), 8, covr_box);
            let h = header_of(s, q);
            &&& one_box(s)
            &&& h.kind == ilst()
            &&& h.wf()
            &&& spec_parse(out_buf, q, lim) == Ok::<_, Mp4Error>(Some(h))
            &&& descend(out_buf, h, Seq::empty(), Gather::CoverItems) == Ok::<_, Mp4Error>(
                seq![header_of(covr_box, c)],
            )
            &&& q <= c
            &&& c + covr_box.len() <= q + s.len()
            &&& out_buf.subrange(c, c + covr_box.len()) == covr_box
        }),
{
    lemma_cover_kinds();
    let kind = ilst();
    let s = box_bytes(ilst(), 8, covr_box);
        assert(kind == ilst());
        let body = covr_box;
        lemma_box_bytes_one(kind, 8, body, q);
        lemma_box_bytes_shape(kind, 8, body);
        let w = written_header_len(8, body);
        lemma_parse_one_box(out_buf, q, lim, s);
        let h = header_of(s, q);
        let ps = seq![covr_box];
        assert(flat(ps) =~= covr_box) by {
            assert(ps.drop_first() =~= Seq::<Seq<u8>>::empty());
            assert(flat(Seq::<Seq<u8>>::empty()) == Seq::<u8>::empty());
            assert(flat(ps) == covr_box + flat(Seq::<Seq<u8>>::empty()));
        }
        lemma_box_bytes_shape(kind, 8, body);
        assert(out_buf.subrange(q + w, q + w + covr_box.len()) =~= s.subrange(w, s.len() as int));
        assert(all_boxes(ps));
        lemma_children_flat(out_buf, q + w, ps);
        assert(spec_container_children(out_buf, h) == Ok::<_, Mp4Error>(headers_of(ps, q + w)));
        lemma_headers_kinds(ps, q + w);
        let hs = headers_of(ps, q + w);
        assert(hs.last() == hs[0]);
        lemma_only_kind_last(hs, covr());
        assert(hs[0] == header_of(covr_box, q + w)) by {
            lemma_flat_at(ps, 0, q + w);
            assert(ps.take(0) =~= Seq::<Seq<u8>>::empty());
            assert(flat(Seq::<Seq<u8>>::empty()) == Seq::<u8>::empty());
        }
        assert(out_buf.subrange(q + w, q + w + covr_box.len()) =~= covr_box);
        q + w
}

/// A box of type `kind` whose body is `pre` followed by the whole boxes
/// `ps`, placed at `q`: it parses as itself, and when its fixed prefix is
/// `pre` its children are the headers of `ps`.
pub proof fn lemma_container_pieces(
    out_buf: Seq<u8>,
    q: int,
    lim: int,
    kind: FourCc,
    hl: u8,
    pre: Seq<u8>,
    ps: Seq<Seq<u8>>,
)
    requires
        laid_boxes(ps),
        (pre + flat(ps)).len() + 16 <= u64::MAX,
        out_buf.len() <= u64::MAX,
        0 <= q,
        q + box_bytes(kind, hl, pre + flat(ps)).len() <= lim,
        q + box_bytes(kind, hl, pre + flat(ps)).len() <= out_buf.len(),
        out_buf.subrange(q, q + box_bytes(kind, hl, pre + flat(ps)).len()) == box_bytes(
            kind,
            hl,
            pre + flat(ps),
        ),
    ensures
        ({
            let s = box_bytes(kind, hl, pre + flat(ps));
            let h = header_of(s, q);
            &&& one_box(s)
            &&& h.kind == kind
            &&& h.wf()
            &&& h.size == s.len()
            &&& h.payload() == q + written_header_len(hl, pre + flat(ps))
            &&& spec_parse(out_buf, q, lim) == Ok::<_, Mp4Error>(Some(h))
            &&& out_buf.subrange(h.payload(), h.payload() + pre.len()) == pre
            &&& out_buf.subrange(h.payload() + pre.len(), h.end_pos()) == flat(ps)
            &&& super::finder::spec_prefix_len(out_buf, h) == pre.len() ==> spec_container_children(
                out_buf,
                h,
            ) == Ok::<_, Mp4Error>(headers_of(ps, h.payload() + pre.len()))
        }),
{
    let body = pre + flat(ps);
    let s = box_bytes(kind, hl, body);
    lemma_box_bytes_one(kind, hl, body, q);
    lemma_box_bytes_shape(kind, hl, body);
    lemma_parse_one_box(out_buf, q, lim, s);
    let h = header_of(s, q);
    let w = written_header_len(hl, body);
    lemma_window_split(out_buf, q, s, w, pre, flat(ps));
    if super::finder::spec_prefix_len(out_buf, h) == pre.len() {
        lemma_children_flat(out_buf, h.payload() + pre.len(), ps);
    }
}

/// A copy of `s` at `q` whose tail from `w` is `a + b` holds `a` at `q + w`
/// and `b` right after it.
proof fn lemma_window_split(buf: Seq<u8>, q: int, s: Seq<u8>, w: int, a: Seq<u8>, b: Seq<u8>)
    requires
        0 <= q,
        0 <= w <= s.len(),
        q + s.len() <= buf.len(),
        buf.subrange(q, q + s.len()) == s,
        s.subrange(w, s.len() as int) == a + b,
    ensures
        buf.subrange(q + w, q + w + a.len()) == a,
        buf.subrange(q + w + a.len(), q + s.len()) == b,
{
    assert(s.len() == w + a.len() + b.len()) by {
        assert(s.subrange(w, s.len() as int).len() == s.len() - w);
    }
    assert forall|i: int| 0 <= i < a.len() implies buf.subrange(q + w, q + w + a.len())[i] == a[i] by {
        assert(buf[q + w + i] == buf.subrange(q, q + s.len())[w + i]);
        assert(s[w + i] == s.subrange(w, s.len() as int)[i]);
        assert((a + b)[i] == a[i]);
    }
    assert(buf.subrange(q + w, q + w + a.len()) =~= a);
    assert forall|i: int| 0 <= i < b.len() implies buf.subrange(q + w + a.len(), q + s.len())[i] == b[i] by {
        assert(buf[q + w + a.len() + i] == buf.subrange(q, q + s.len())[w + a.len() + i]);
        assert(s[w + a.len() + i] == s.subrange(w, s.len() as int)[a.len() + i]);
        assert((a + b)[a.len() + i] == b[i]);
    }
    assert(buf.subrange(q + w + a.len(), q + s.len()) =~= b);
}

/// A synthesized chain placed in a buffer parses as its outer box, and the
/// walk along the rest of the path from it finds the cover alone.
#[verifier::rlimit(100)]
pub proof fn lemma_synth_holds_cover(
    kind: FourCc,
    rest: Seq<FourCc>,
    covr_box: Seq<u8>,
    out_buf: Seq<u8>,
    q: int,
    lim: int,
) -> (c: int)
    requires
        cover_level(seq![kind] + rest),
        one_box(covr_box),
        kind_at(covr_box, 4) == covr(),
        covr_box.len() + growth(3) + 16 <= u64::MAX,
        out_buf.len() <= u64::MAX,
        0 <= q,
        q + spec_synthesize(kind, rest, covr_box).0.len() <= lim,
        q + spec_synthesize(kind, rest, covr_box).0.len() <= out_buf.len(),
        out_buf.subrange(q, q + spec_synthesize(kind, rest, covr_box).0.len())
            == spec_synthesize(kind, rest, covr_box).0,
    ensures
        ({
            let s = spec_synthesize(kind, rest, covr_box).0;
            let h = header_of(s, q);
            &&& one_box(s)
            &&& h.kind == kind
            &&& h.wf()
            &&& spec_parse(out_buf, q, lim) == Ok::<_, Mp4Error>(Some(h))
            &&& descend(out_buf, h, rest, Gather::CoverItems) == Ok::<_, Mp4Error>(
                seq![header_of(covr_box, c)],
            )
            &&& q <= c
            &&& c + covr_box.len() <= q + s.len()
            &&& out_buf.subrange(c, c + covr_box.len()) == covr_box
        }),
    decreases rest.len(), 2nat,
{
    lemma_cover_kinds();
    lemma_cover_level(seq![kind] + rest);
    assert((seq![kind] + rest)[0] == kind);
    assert((seq![kind] + rest).drop_first() =~= rest);
    if rest.len() == 0 {
        assert(kind == ilst());
        lemma_ilst_holds_cover(covr_box, out_buf, q, lim)
    } else {
        let next = rest[0];
        let tail = rest.drop_first();
        assert(seq![next] + tail =~= rest);
        let inner = spec_synthesize(next, tail, covr_box).0;
        lemma_synthesize_len(next, tail, covr_box);
        lemma_synthesize_len(kind, rest, covr_box);
        lemma_box_bytes_shape(hdlr(), 8, hdlr_body());
        lemma_box_bytes_one(hdlr(), 8, hdlr_body(), 0);
        let c = if kind == meta() {
            lemma_meta_step(next, tail, covr_box, out_buf, q, lim)
        } else {
            lemma_plain_step(kind, next, tail, covr_box, out_buf, q, lim)
        };
        c
    }
}

/// [`lemma_synth_holds_cover`] for a synthesized `meta`: a version, an
/// `hdlr`, then the rest of the chain.
#[verifier::rlimit(100)]
proof fn lemma_meta_step(
    next: FourCc,
    tail: Seq<FourCc>,
    covr_box: Seq<u8>,
    out_buf: Seq<u8>,
    q: int,
    lim: int,
) -> (c: int)
    requires
        cover_level(seq![meta()] + (seq![next] + tail)),
        one_box(covr_box),
        kind_at(covr_box, 4) == covr(),
        covr_box.len() + growth(3) + 16 <= u64::MAX,
        out_buf.len() <= u64::MAX,
        0 <= q,
        q + spec_synthesize(meta(), seq![next] + tail, covr_box).0.len() <= lim,
        q + spec_synthesize(meta(), seq![next] + tail, covr_box).0.len() <= out_buf.len(),
        out_buf.subrange(q, q + spec_synthesize(meta(), seq![next] + tail, covr_box).0.len())
            == spec_synthesize(meta(), seq![next] + tail, covr_box).0,
    ensures
        ({
            let s = spec_synthesize(meta(), seq![next] + tail, covr_box).0;
            let h = header_of(s, q);
            &&& one_box(s)
            &&& h.kind == meta()
            &&& h.wf()
            &&& spec_parse(out_buf, q, lim) == Ok::<_, Mp4Error>(Some(h))
            &&& descend(out_buf, h, seq![next] + tail, Gather::CoverItems) == Ok::<_, Mp4Error>(
                seq![header_of(covr_box, c)],
            )
            &&& q <= c
            &&& c + covr_box.len() <= q + s.len()
            &&& out_buf.subrange(c, c + covr_box.len()) == covr_box
        }),
    decreases tail.len() + 1, 1nat,
{
    let rest = seq![next] + tail;
    lemma_cover_kinds();
    lemma_cover_level(seq![meta()] + rest);
    assert((seq![meta()] + rest).drop_first() =~= rest);
    lemma_cover_level(rest);
    assert(rest[0] == next);
    assert(rest.drop_first() =~= tail);
    assert(next == ilst());
    let inner = spec_synthesize(next, tail, covr_box).0;
    lemma_synthesize_len(next, tail, covr_box);
    lemma_box_bytes_shape(hdlr(), 8, hdlr_body());
    lemma_box_bytes_one(hdlr(), 8, hdlr_body(), 0);
    lemma_box_bytes_one(next, 8, covr_box, 0);
    let pre = seq![0u8, 0u8, 0u8, 0u8];
    let ps = seq![hdlr_bytes(), inner];
    assert(flat(ps) =~= hdlr_bytes() + inner) by {
        assert(flat(Seq::<Seq<u8>>::empty()) == Seq::<u8>::empty());
        assert(ps.drop_first() =~= seq![inner]);
        assert(seq![inner].drop_first() =~= Seq::<Seq<u8>>::empty());
        assert(flat(seq![inner]) == inner + flat(Seq::<Seq<u8>>::empty()));
    }
    assert(spec_synthesize(meta(), rest, covr_box).0 == box_bytes(meta(), 8, pre + flat(ps))) by {
        assert(pre + hdlr_bytes() + inner =~= pre + flat(ps));
    }
    assert(all_boxes(ps));
    lemma_container_pieces(out_buf, q, lim, meta(), 8, pre, ps);
    let s = box_bytes(meta(), 8, pre + flat(ps));
    let h = header_of(s, q);
    let w = written_header_len(8, pre + flat(ps));
    assert(h.payload() == q + w);
    assert(out_buf[q + w + 4] == hdlr_bytes()[0]) by {
        assert(out_buf.subrange(h.payload() + 4, h.end_pos())[0] == flat(ps)[0]);
    }
    assert(hdlr_bytes()[0] == 0);
    assert(kind_at(out_buf, h.payload() + 4) != hdlr()) by {
        broadcast use vstd::array::group_array_axioms;

        assert(kind_at(out_buf, h.payload() + 4).0[0] == out_buf[q + w + 4]);
    }
    assert(super::finder::spec_prefix_len(out_buf, h) == 4);
    let start = h.payload() + 4;
    lemma_headers_kinds(ps, start);
    let hs = headers_of(ps, start);
    lemma_flat_at(ps, 1, start);
    assert(ps.take(1) =~= seq![hdlr_bytes()]);
    assert(flat(seq![hdlr_bytes()]) =~= hdlr_bytes()) by {
        assert(seq![hdlr_bytes()].drop_first() =~= Seq::<Seq<u8>>::empty());
        assert(flat(Seq::<Seq<u8>>::empty()) == Seq::<u8>::empty());
        assert(flat(seq![hdlr_bytes()]) == hdlr_bytes() + flat(Seq::<Seq<u8>>::empty()));
    }
    let pos_in = start + hdlr_bytes().len();
    assert(out_buf.subrange(pos_in, pos_in + inner.len()) =~= flat(ps).subrange(
        hdlr_bytes().len() as int,
        hdlr_bytes().len() + inner.len() as int,
    ));
    let c = lemma_synth_holds_cover(next, tail, covr_box, out_buf, pos_in, h.end_pos());
    assert(hs[1] == header_of(inner, pos_in));
    assert(hs[0].kind == hdlr());
    assert forall|i: int| 0 <= i < hs.len() && i != 1 implies (#[trigger] hs[i]).kind != next by {
        assert(i == 0);
    }
    lemma_descend_list_one(out_buf, hs, rest, Gather::CoverItems, 1);
    c
}

/// [`lemma_synth_holds_cover`] for a synthesized box other than `meta`: its
/// body is the rest of the chain.
#[verifier::rlimit(100)]
#[verifier::spinoff_prover]
proof fn lemma_plain_step(
    kind: FourCc,
    next: FourCc,
    tail: Seq<FourCc>,
    covr_box: Seq<u8>,
    out_buf: Seq<u8>,
    q: int,
    lim: int,
) -> (c: int)
    requires
        kind != meta(),
        cover_level(seq![kind] + (seq![next] + tail)),
        one_box(covr_box),
        kind_at(covr_box, 4) == covr(),
        covr_box.len() + growth(3) + 16 <= u64::MAX,
        out_buf.len() <= u64::MAX,
        0 <= q,
        q + spec_synthesize(kind, seq![next] + tail, covr_box).0.len() <= lim,
        q + spec_synthesize(kind, seq![next] + tail, covr_box).0.len() <= out_buf.len(),
        out_buf.subrange(q, q + spec_synthesize(kind, seq![next] + tail, covr_box).0.len())
            == spec_synthesize(kind, seq![next] + tail, covr_box).0,
    ensures
        ({
            let s = spec_synthesize(kind, seq![next] + tail, covr_box).0;
            let h = header_of(s, q);
            &&& one_box(s)
            &&& h.kind == kind
            &&& h.wf()
            &&& spec_parse(out_buf, q, lim) == Ok::<_, Mp4Error>(Some(h))
            &&& descend(out_buf, h, seq![next] + tail, Gather::CoverItems) == Ok::<_, Mp4Error>(
                seq![header_of(covr_box, c)],
            )
            &&& q <= c
            &&& c + covr_box.len() <= q + s.len()
            &&& out_buf.subrange(c, c + covr_box.len()) == covr_box
        }),
    decreases tail.len() + 1, 1nat,
{
    let rest = seq![next] + tail;
    let inner = spec_synthesize(next, tail, covr_box).0;
    let ps = seq![inner];
    let s = spec_synthesize(kind, rest, covr_box).0;
    assert(rest.drop_first() =~= tail);
    assert(cover_level(seq![next] + tail)) by {
        lemma_cover_level(seq![kind] + rest);
        assert((seq![kind] + rest).drop_first() =~= rest);
    }
    assert(s == box_bytes(kind, 8, Seq::<u8>::empty() + flat(ps)) && inner.len() <= covr_box.len() + 192
        && flat(ps) == inner && Seq::<u8>::empty() + flat(ps) == inner) by {
        lemma_synthesize_len(next, tail, covr_box);
        assert(flat(Seq::<Seq<u8>>::empty()) == Seq::<u8>::empty());
        assert(ps.drop_first() =~= Seq::<Seq<u8>>::empty());
        assert(flat(ps) == inner + flat(Seq::<Seq<u8>>::empty()));
        assert(Seq::<u8>::empty() + flat(ps) =~= inner);
        assert(rest[0] == next);
    }
    lemma_synthesize_one(next, tail, covr_box);
    assert(all_boxes(ps));
    lemma_container_pieces(out_buf, q, lim, kind, 8, Seq::<u8>::empty(), ps);
    let h = header_of(s, q);
    let start = q + written_header_len(8, Seq::<u8>::empty() + flat(ps));
    assert(h.payload() == start);
    assert(super::finder::spec_prefix_len(out_buf, h) == 0);
    assert(out_buf.subrange(start, h.end_pos()) == inner);
    let c = lemma_single_child_cover(out_buf, h, start, next, tail, covr_box, inner);
    c
}

/// A synthesized chain is one whole box of its outer type.
proof fn lemma_synthesize_one(kind: FourCc, rest: Seq<FourCc>, covr_box: Seq<u8>)
    requires
        covr_box.len() + growth(3) + 16 <= u64::MAX,
        rest.len() <= 2,
    ensures
        one_box(spec_synthesize(kind, rest, covr_box).0),
        kind_at(spec_synthesize(kind, rest, covr_box).0, 4) == kind,
{
    lemma_box_bytes_shape(hdlr(), 8, hdlr_body());
    if rest.len() == 0 {
        lemma_box_bytes_one(kind, 8, covr_box, 0);
    } else {
        let inner = spec_synthesize(rest[0], rest.drop_first(), covr_box);
        lemma_synthesize_len(rest[0], rest.drop_first(), covr_box);
        let body = if kind == meta() {
            seq![0u8, 0u8, 0u8, 0u8] + hdlr_bytes() + inner.0
        } else {
            inner.0
        };
        assert(body.len() <= covr_box.len() + 64 * 3 + 64);
        lemma_box_bytes_one(kind, 8, body, 0);
    }
}

/// A box whose only child is a synthesized chain: the walk from the box
/// is the walk from that child.
#[verifier::rlimit(100)]
proof fn lemma_single_child_cover(
    out_buf: Seq<u8>,
    h: BoxHeader,
    start: int,
    next: FourCc,
    tail: Seq<FourCc>,
    covr_box: Seq<u8>,
    inner: Seq<u8>,
) -> (c: int)
    requires
        inner == spec_synthesize(next, tail, covr_box).0,
        cover_level(seq![next] + tail),
        one_box(covr_box),
        kind_at(covr_box, 4) == covr(),
        covr_box.len() + growth(3) + 16 <= u64::MAX,
        out_buf.len() <= u64::MAX,
        0 <= start,
        h.wf(),
        h.end_pos() == start + inner.len(),
        h.end_pos() <= out_buf.len(),
        out_buf.subrange(start, h.end_pos()) == inner,
        spec_container_children(out_buf, h) == Ok::<_, Mp4Error>(headers_of(seq![inner], start)),
    ensures
        descend(out_buf, h, seq![next] + tail, Gather::CoverItems) == Ok::<_, Mp4Error>(
            seq![header_of(covr_box, c)],
        ),
        start <= c,
        c + covr_box.len() <= h.end_pos(),
        out_buf.subrange(c, c + covr_box.len()) == covr_box,
    decreases tail.len() + 1, 0nat,
{
    let rest = seq![next] + tail;
    let ps = seq![inner];
    let c = lemma_synth_holds_cover(next, tail, covr_box, out_buf, start, h.end_pos());
    lemma_headers_kinds(ps, start);
    let hs = headers_of(ps, start);
    lemma_flat_at(ps, 0, start);
    assert(ps.take(0) =~= Seq::<Seq<u8>>::empty());
    assert(flat(Seq::<Seq<u8>>::empty()) == Seq::<u8>::empty());
    assert(hs[0] == header_of(inner, start));
    assert(rest[0] == next);
    assert(rest.drop_first() =~= tail);
    lemma_descend_list_one(out_buf, hs, rest, Gather::CoverItems, 0);
    c
}

/// The walk `path` below container `hdr` of `buf` meets no surprise: no
/// child in the `size == 0` form stands where a box is appended after it
/// (in the `ilst`, one that is kept; at a level whose next box on the path is
/// missing and created, any); at each level every child with the next type
/// on the path, past the first, holds no cover (see [`holds_no_cover`]); and
/// a `meta` whose `ilst` comes first does not get a rebuilt `ilst` whose
/// size field reads as the type `hdlr`, which would pass for the `hdlr` that
/// marks a `meta` without a version field.
pub open spec fn cover_path_clean(buf: Seq<u8>, hdr: BoxHeader, path: Seq<FourCc>, covr_box: Seq<u8>) -> bool
    decreases path.len(),
{
    match spec_container_children(buf, hdr) {
        Err(_) => true,
        Ok(kids) => {
            if path.len() == 0 {
                forall|i: int|
                    0 <= i < kids.len() && (#[trigger] kids[i]).kind != covr() ==> be32(
                        buf,
                        kids[i].offset as int,
                    ) != 0
            } else {
                &&& (first_of(kids, path[0]) == kids.len() ==> forall|i: int|
                    0 <= i < kids.len() ==> be32(buf, (#[trigger] kids[i]).offset as int) != 0)
                &&& forall|i: int|
                    0 <= i < kids.len() && (#[trigger] kids[i]).kind == path[0] && i != first_of(
                        kids,
                        path[0],
                    ) ==> holds_no_cover(buf, kids[i], path.drop_first())
                &&& (hdr.kind == meta() && first_of(kids, path[0]) == 0 && has_kind(kids, hdlr())
                    ==> (spec_rebuild(buf, kids[0], path.drop_first(), covr_box) matches Ok(r) ==> kind_at(
                    r.0,
                    0,
                ) != hdlr()))
                &&& (first_of(kids, path[0]) < kids.len() ==> cover_path_clean(
                    buf,
                    kids[first_of(kids, path[0])],
                    path.drop_first(),
                    covr_box,
                ))
            }
        },
    }
}

/// The children after index `j`, none when `j` is past the end.
pub open spec fn after_first(kids: Seq<BoxHeader>, j: int) -> Seq<BoxHeader> {
    if j < kids.len() {
        kids.skip(j + 1)
    } else {
        Seq::empty()
    }
}

/// Pieces of a rebuilt container above `ilst`: an added `hdlr` if any, the
/// children before the rebuilt one, the rebuilt (or created) child, and the
/// children after it.
pub open spec fn level_pieces(
    buf: Seq<u8>,
    kids: Seq<BoxHeader>,
    j: int,
    hdp: Seq<Seq<u8>>,
    x: Seq<u8>,
) -> Seq<Seq<u8>> {
    hdp + kid_bytes(buf, kids.take(j)) + seq![x] + kid_bytes(buf, after_first(kids, j))
}

/// How the pieces of a rebuilt level lay out.
pub proof fn lemma_level_layout(buf: Seq<u8>, kids: Seq<BoxHeader>, j: int, hdp: Seq<Seq<u8>>, x: Seq<u8>)
    requires
        0 <= j <= kids.len(),
    ensures
        ({
            let ps = level_pieces(buf, kids, j, hdp, x);
            let m = hdp.len() + j;
            &&& ps.len() == m + 1 + after_first(kids, j).len()
            &&& ps[m] == x
            &&& flat(ps) == flat(hdp) + spans(buf, kids.take(j)) + x + spans(buf, after_first(kids, j))
            &&& flat(ps.take(m)) == flat(hdp) + spans(buf, kids.take(j))
            &&& forall|i: int| 0 <= i < hdp.len() ==> #[trigger] ps[i] == hdp[i]
            &&& forall|i: int|
                0 <= i < j ==> #[trigger] ps[hdp.len() + i] == kid_bytes(buf, kids.take(j))[i]
            &&& forall|i: int|
                m < i < ps.len() ==> #[trigger] ps[i] == kid_bytes(buf, after_first(kids, j))[i - m
                    - 1]
        }),
{
    let a = hdp;
    let b = kid_bytes(buf, kids.take(j));
    let cx = seq![x];
    let d = kid_bytes(buf, after_first(kids, j));
    let ps = level_pieces(buf, kids, j, hdp, x);
    let m = hdp.len() + j;
    assert(ps == a + b + cx + d);
    lemma_flat_concat(a + b + cx, d);
    lemma_flat_concat(a + b, cx);
    lemma_flat_concat(a, b);
    assert(flat(cx) =~= x) by {
        assert(cx.drop_first() =~= Seq::<Seq<u8>>::empty());
        assert(flat(Seq::<Seq<u8>>::empty()) == Seq::<u8>::empty());
        assert(flat(cx) == x + flat(Seq::<Seq<u8>>::empty()));
    }
    lemma_spans_flat(buf, kids.take(j));
    lemma_spans_flat(buf, after_first(kids, j));
    assert(ps.take(m) =~= a + b);
}

/// In a rebuilt `meta` with a version field, the first piece after the
/// version field has a size field that does not read as `hdlr`.
#[verifier::rlimit(100)]
#[verifier::spinoff_prover]
proof fn lemma_meta_first_piece(buf: Seq<u8>, hdr: BoxHeader, path: Seq<FourCc>, covr_box: Seq<u8>)
    requires
        hdr.wf(),
        hdr.end_pos() <= buf.len(),
        buf.len() + covr_box.len() + growth(3) + 16 <= u64::MAX,
        cover_level(path),
        path.len() > 0,
        hdr.kind == meta(),
        hdr.kind == meta() <==> path.len() == 1,
        cover_path_clean(buf, hdr, path, covr_box),
        one_box(covr_box),
        kind_at(covr_box, 4) == covr(),
        spec_rebuild(buf, hdr, path, covr_box) is Ok,
    ensures
        level_pre(buf, hdr).len() == 4 ==> kind_at(level_ps(buf, hdr, path, covr_box)[0], 0) != hdlr(),
{
    broadcast use vstd::array::group_array_axioms;

    reveal(level_ps);
    lemma_rebuilt_body(buf, hdr, path, covr_box);
    lemma_level_facts(buf, hdr, path, covr_box);
    lemma_cover_kinds();
    let kids = level_kids(buf, hdr);
    let j = level_j(buf, hdr, path);
    let hdp = level_hdp(buf, hdr);
    let x = level_x(buf, hdr, path, covr_box);
    let ps = level_ps(buf, hdr, path, covr_box);
    lemma_first_of(kids, path[0]);
    lemma_level_layout(buf, kids, j, hdp, x);
    if level_pre(buf, hdr).len() == 4 {
        if hdp.len() > 0 {
            assert(ps[0] == hdp[0]);
            assert(hdp[0] == hdlr_bytes());
            lemma_box_bytes_shape(hdlr(), 8, hdlr_body());
            assert(hdlr_bytes()[0] == 0u8);
            assert(kind_at(ps[0], 0).0[0] == 0u8);
            assert(hdlr().0[0] == 0x68u8);
        } else if j == 0 {
            assert(ps[0] == x);
        } else {
            let start = hdr.payload() + spec_prefix_len(buf, hdr);
            lemma_children_ok(buf, start, hdr.end_pos());
            assert(kids.len() > 0) by {
                if kids.len() == 0 {
                    assert(!has_kind(kids, hdlr()));
                }
            }
            let k = kids[0];
            assert(k.offset == hdr.payload() + 4);
            assert(ps[0] == kid_bytes(buf, kids.take(j))[0]);
            assert(kids.take(j)[0] == k);
            assert(ps[0] == buf.subrange(k.offset as int, k.end_pos()));
            assert(kind_at(ps[0], 0) =~= kind_at(buf, hdr.payload() + 4));
        }
    }
}

/// The fixed prefix of a rebuilt `meta` is sniffed as it was: the pieces
/// after it start with `hdlr` exactly when there was no prefix, and a
/// piece's size field never reads as `hdlr`.
proof fn lemma_prefix_kept(out_buf: Seq<u8>, h: BoxHeader, pre: Seq<u8>, ps: Seq<Seq<u8>>)
    requires
        h.kind == meta(),
        pre.len() == 0 || pre.len() == 4,
        ps.len() > 0,
        ps[0].len() >= 8,
        pre.len() == 4 ==> kind_at(ps[0], 0) != hdlr(),
        0 <= h.payload(),
        h.payload() + pre.len() + flat(ps).len() <= out_buf.len(),
        out_buf.subrange(h.payload() + pre.len(), h.payload() + pre.len() + flat(ps).len())
            == flat(ps),
        pre.len() == 0 ==> kind_at(ps[0], 4) == hdlr(),
    ensures
        super::finder::spec_prefix_len(out_buf, h) == pre.len(),
{
    broadcast use vstd::array::group_array_axioms;

    let base = h.payload() + pre.len();
    assert(flat(ps) == ps[0] + flat(ps.drop_first()));
    assert forall|k: int| 0 <= k < 8 implies out_buf[base + k] == #[trigger] ps[0][k] by {
        assert(out_buf[base + k] == out_buf.subrange(base, base + flat(ps).len())[k]);
        assert(flat(ps)[k] == ps[0][k]);
    }
    if pre.len() == 0 {
        assert(kind_at(out_buf, h.payload() + 4).0 =~= kind_at(ps[0], 4).0) by {
            assert(out_buf[base + 4] == ps[0][4]);
            assert(out_buf[base + 5] == ps[0][5]);
            assert(out_buf[base + 6] == ps[0][6]);
            assert(out_buf[base + 7] == ps[0][7]);
        }
    } else {
        assert(kind_at(out_buf, h.payload() + 4) =~= kind_at(ps[0], 0)) by {
            assert(out_buf[base] == ps[0][0]);
            assert(out_buf[base + 1] == ps[0][1]);
            assert(out_buf[base + 2] == ps[0][2]);
            assert(out_buf[base + 3] == ps[0][3]);
        }
    }
}

/// A successful rebuild is one whole box of the rebuilt container's type.
proof fn lemma_rebuild_one(buf: Seq<u8>, hdr: BoxHeader, path: Seq<FourCc>, covr_box: Seq<u8>)
    requires
        hdr.wf(),
        hdr.end_pos() <= buf.len(),
        path.len() <= 3,
        buf.len() + covr_box.len() + growth(3) + 16 <= u64::MAX,
        spec_rebuild(buf, hdr, path, covr_box) is Ok,
    ensures
        one_box(spec_rebuild(buf, hdr, path, covr_box).unwrap().0),
        kind_at(spec_rebuild(buf, hdr, path, covr_box).unwrap().0, 4) == hdr.kind,
        spec_rebuild(buf, hdr, path, covr_box).unwrap().0.len() <= hdr.size + covr_box.len()
            + growth(path.len() as int),
{
    lemma_rebuild_len(buf, hdr, path, covr_box);
    let body = rebuilt_body(buf, hdr, path, covr_box);
    lemma_rebuilt_body(buf, hdr, path, covr_box);
    lemma_box_bytes_shape(hdr.kind, hdr.header_len, body);
    lemma_box_bytes_one(hdr.kind, hdr.header_len, body, 0);
}

/// The body of a successful rebuild: what follows the rebuilt header.
#[verifier::opaque]
pub open spec fn rebuilt_body(buf: Seq<u8>, hdr: BoxHeader, path: Seq<FourCc>, covr_box: Seq<u8>) -> Seq<
    u8,
> {
    let kids = spec_container_children(buf, hdr).unwrap();
    let p = hdr.payload();
    let pre = buf.subrange(p, p + spec_prefix_len(buf, hdr));
    if path.len() == 0 {
        pre + spans(buf, without_kind(kids, covr())) + covr_box
    } else {
        let add = hdr.kind == meta() && !has_kind(kids, hdlr());
        let hd = if add {
            hdlr_bytes()
        } else {
            Seq::empty()
        };
        let j = first_of(kids, path[0]);
        if j < kids.len() {
            pre + hd + spans(buf, kids.take(j)) + spec_rebuild(buf, kids[j], path.drop_first(), covr_box).unwrap().0
                + spans(buf, kids.skip(j + 1))
        } else {
            pre + hd + spans(buf, kids) + spec_synthesize(path[0], path.drop_first(), covr_box).0
        }
    }
}

/// A successful rebuild writes the container's type and header length
/// around [`rebuilt_body`].
pub proof fn lemma_rebuilt_body(buf: Seq<u8>, hdr: BoxHeader, path: Seq<FourCc>, covr_box: Seq<u8>)
    requires
        spec_rebuild(buf, hdr, path, covr_box) is Ok,
    ensures
        spec_rebuild(buf, hdr, path, covr_box).unwrap().0 == box_bytes(
            hdr.kind,
            hdr.header_len,
            rebuilt_body(buf, hdr, path, covr_box),
        ),
        spec_container_children(buf, hdr) is Ok,
        hdr.payload() + spec_prefix_len(buf, hdr) <= buf.len(),
        path.len() > 0 && first_of(spec_container_children(buf, hdr).unwrap(), path[0])
            < spec_container_children(buf, hdr).unwrap().len() ==> spec_rebuild(
            buf,
            spec_container_children(buf, hdr).unwrap()[first_of(
                spec_container_children(buf, hdr).unwrap(),
                path[0],
            )],
            path.drop_first(),
            covr_box,
        ) is Ok,
{
    reveal(spec_rebuild);
    reveal(rebuilt_body);
}

/// The children of a container, once scanned.
pub open spec fn level_kids(buf: Seq<u8>, hdr: BoxHeader) -> Seq<BoxHeader> {
    spec_container_children(buf, hdr).unwrap()
}

/// The fixed prefix a rebuild copies.
pub open spec fn level_pre(buf: Seq<u8>, hdr: BoxHeader) -> Seq<u8> {
    buf.subrange(hdr.payload(), hdr.payload() + spec_prefix_len(buf, hdr))
}

/// The `hdlr` a rebuild adds to a `meta` without one, as a list of pieces.
pub open spec fn level_hdp(buf: Seq<u8>, hdr: BoxHeader) -> Seq<Seq<u8>> {
    if hdr.kind == meta() && !has_kind(level_kids(buf, hdr), hdlr()) {
        seq![hdlr_bytes()]
    } else {
        Seq::empty()
    }
}

/// Index of the child a rebuild descends into (past the end when the chain
/// is created).
pub open spec fn level_j(buf: Seq<u8>, hdr: BoxHeader, path: Seq<FourCc>) -> int {
    first_of(level_kids(buf, hdr), path[0])
}

/// The rebuilt or created child.
pub open spec fn level_x(buf: Seq<u8>, hdr: BoxHeader, path: Seq<FourCc>, covr_box: Seq<u8>) -> Seq<u8> {
    let kids = level_kids(buf, hdr);
    let j = level_j(buf, hdr, path);
    if j < kids.len() {
        spec_rebuild(buf, kids[j], path.drop_first(), covr_box).unwrap().0
    } else {
        spec_synthesize(path[0], path.drop_first(), covr_box).0
    }
}

/// All the pieces after the prefix of a container rebuilt above `ilst`.
#[verifier::opaque]
pub open spec fn level_ps(buf: Seq<u8>, hdr: BoxHeader, path: Seq<FourCc>, covr_box: Seq<u8>) -> Seq<
    Seq<u8>,
> {
    level_pieces(
        buf,
        level_kids(buf, hdr),
        level_j(buf, hdr, path),
        level_hdp(buf, hdr),
        level_x(buf, hdr, path, covr_box),
    )
}

/// What the walk needs to know of a container rebuilt above `ilst`: its
/// body is its prefix and whole boxes, exactly one of which (the rebuilt or
/// created child) has the next type on the path.
#[verifier::rlimit(100)]
#[verifier::spinoff_prover]
pub proof fn lemma_level_facts(buf: Seq<u8>, hdr: BoxHeader, path: Seq<FourCc>, covr_box: Seq<u8>)
    requires
        hdr.wf(),
        hdr.end_pos() <= buf.len(),
        buf.len() + covr_box.len() + growth(3) + 16 <= u64::MAX,
        cover_level(path),
        path.len() > 0,
        hdr.kind == meta() <==> path.len() == 1,
        cover_path_clean(buf, hdr, path, covr_box),
        one_box(covr_box),
        kind_at(covr_box, 4) == covr(),
        spec_rebuild(buf, hdr, path, covr_box) is Ok,
    ensures
        ({
            let ps = level_ps(buf, hdr, path, covr_box);
            let m = level_hdp(buf, hdr).len() + level_j(buf, hdr, path);
            let pre = level_pre(buf, hdr);
            &&& rebuilt_body(buf, hdr, path, covr_box) == pre + flat(ps)
            &&& laid_boxes(ps)
            &&& forall|i: int| 0 <= i <= m ==> one_box(#[trigger] ps[i])
            &&& 0 <= m < ps.len()
            &&& ps[m] == level_x(buf, hdr, path, covr_box)
            &&& kind_at(ps[m], 4) == path[0]
            &&& forall|i: int| 0 <= i < m ==> kind_at(#[trigger] ps[i], 4) != path[0]
            &&& forall|i: int|
                m < i < ps.len() ==> {
                    let k = level_kids(buf, hdr)[i - level_hdp(buf, hdr).len()];
                    &&& #[trigger] ps[i] == buf.subrange(k.offset as int, k.end_pos())
                    &&& kind_at(ps[i], 4) == k.kind
                    &&& spec_parse(buf, k.offset as int, hdr.end_pos()) == Ok::<_, Mp4Error>(Some(k))
                    &&& (k.kind == path[0] ==> holds_no_cover(buf, k, path.drop_first()))
                }
            &&& pre.len() == spec_prefix_len(buf, hdr)
            &&& (pre.len() == 0 || pre.len() == 4)
        }),
{
    reveal(rebuilt_body);
    reveal(level_ps);
    lemma_rebuilt_body(buf, hdr, path, covr_box);
    lemma_children_fill(buf, hdr);
    lemma_cover_kinds();
    lemma_cover_level(path);
    let kids = level_kids(buf, hdr);
    let j = level_j(buf, hdr, path);
    let hdp = level_hdp(buf, hdr);
    let x = level_x(buf, hdr, path, covr_box);
    let ps = level_ps(buf, hdr, path, covr_box);
    let pre = level_pre(buf, hdr);
    let m = hdp.len() + j;
    lemma_first_of(kids, path[0]);
    lemma_level_layout(buf, kids, j, hdp, x);
    let add = hdr.kind == meta() && !has_kind(kids, hdlr());
    let hd: Seq<u8> = if add {
        hdlr_bytes()
    } else {
        Seq::empty()
    };
    assert(flat(hdp) == hd) by {
        assert(flat(Seq::<Seq<u8>>::empty()) == Seq::<u8>::empty());
        if add {
            assert(hdp.drop_first() =~= Seq::<Seq<u8>>::empty());
            assert(flat(hdp) == hdlr_bytes() + flat(Seq::<Seq<u8>>::empty()));
            assert(flat(hdp) =~= hd);
        }
    }
    if j < kids.len() {
        assert(rebuilt_body(buf, hdr, path, covr_box) =~= pre + flat(ps));
    } else {
        assert(kids.take(j) =~= kids);
        assert(spans(buf, Seq::<BoxHeader>::empty()) == Seq::<u8>::empty());
        assert(rebuilt_body(buf, hdr, path, covr_box) =~= pre + flat(ps));
    }
    // Every piece is a whole box.
    let take = kids.take(j);
    let after = after_first(kids, j);
    assert forall|i: int| 0 <= i < take.len() implies kids.contains(#[trigger] take[i]) by {
        assert(take[i] == kids[i]);
    }
    assert forall|i: int| 0 <= i < after.len() implies kids.contains(#[trigger] after[i]) by {
        assert(after[i] == kids[i + j + 1]);
    }
    lemma_zero_kid_last(buf, hdr.payload() + spec_prefix_len(buf, hdr), hdr.end_pos());
    lemma_kids_are_boxes(buf, hdr, take);
    lemma_kids_are_boxes(buf, hdr, after);
    lemma_box_bytes_one(hdlr(), 8, hdlr_body(), 0);
    lemma_box_bytes_shape(hdlr(), 8, hdlr_body());
    if j < kids.len() {
        lemma_rebuild_one(buf, kids[j], path.drop_first(), covr_box);
    } else {
        lemma_synthesize_one(path[0], path.drop_first(), covr_box);
    }
    assert forall|i: int| 0 <= i < ps.len() implies one_box(#[trigger] ps[i]) || (i == ps.len() - 1
        && zero_box(ps[i])) by {
        if i < hdp.len() {
            assert(ps[i] == hdp[i]);
        } else if i < m {
            let t = i - hdp.len();
            assert(ps[hdp.len() + t] == kid_bytes(buf, take)[t]);
            assert(take[t] == kids[t]);
            if j == kids.len() {
                assert(be32(buf, kids[t].offset as int) != 0);
            } else {
                assert(t < kids.len() - 1);
            }
        } else if i > m {
            let t = i - m - 1;
            assert(ps[i] == kid_bytes(buf, after)[t]);
            assert(after[t] == kids[t + j + 1]);
            if i < ps.len() - 1 {
                assert(t + j + 1 < kids.len() - 1);
            }
        }
    }
    assert forall|i: int| 0 <= i <= m implies one_box(#[trigger] ps[i]) by {
        if i < m {
            if i >= hdp.len() {
                let t = i - hdp.len();
                assert(take[t] == kids[t]);
                if j < kids.len() {
                    assert(t < kids.len() - 1);
                }
            }
        }
    }
    assert forall|i: int| 0 <= i < m implies kind_at(#[trigger] ps[i], 4) != path[0] by {
        if i < hdp.len() {
            assert(ps[i] == hdp[i]);
        } else {
            let k = i - hdp.len();
            assert(ps[hdp.len() + k] == kid_bytes(buf, take)[k]);
            assert(take[k] == kids[k]);
        }
    }
    lemma_children_parsed(buf, hdr.payload() + spec_prefix_len(buf, hdr), hdr.end_pos());
    assert forall|i: int| m < i < ps.len() implies {
        let k = level_kids(buf, hdr)[i - level_hdp(buf, hdr).len()];
        &&& #[trigger] ps[i] == buf.subrange(k.offset as int, k.end_pos())
        &&& kind_at(ps[i], 4) == k.kind
        &&& spec_parse(buf, k.offset as int, hdr.end_pos()) == Ok::<_, Mp4Error>(Some(k))
        &&& (k.kind == path[0] ==> holds_no_cover(buf, k, path.drop_first()))
    } by {
        let t = i - m - 1;
        assert(ps[i] == kid_bytes(buf, after)[t]);
        assert(after[t] == kids[t + j + 1]);
        assert(t + j + 1 == i - hdp.len());
        assert(kids.contains(after[t]));
    }
}

/// A `meta` with no version field starts with its `hdlr`, and so does its
/// rebuilt body.
#[verifier::rlimit(100)]
#[verifier::spinoff_prover]
proof fn lemma_level_first(buf: Seq<u8>, hdr: BoxHeader, path: Seq<FourCc>, covr_box: Seq<u8>)
    requires
        hdr.wf(),
        hdr.end_pos() <= buf.len(),
        buf.len() + covr_box.len() + growth(3) + 16 <= u64::MAX,
        cover_level(path),
        path.len() == 1,
        hdr.kind == meta(),
        cover_path_clean(buf, hdr, path, covr_box),
        spec_rebuild(buf, hdr, path, covr_box) is Ok,
        spec_prefix_len(buf, hdr) == 0,
    ensures
        level_ps(buf, hdr, path, covr_box).len() > 0,
        kind_at(level_ps(buf, hdr, path, covr_box)[0], 4) == hdlr(),
{
    broadcast use vstd::array::group_array_axioms;

    reveal(level_ps);
    lemma_cover_kinds();
    lemma_cover_level(path);
    lemma_rebuilt_body(buf, hdr, path, covr_box);
    let kids = level_kids(buf, hdr);
    let j = level_j(buf, hdr, path);
    let hdp = level_hdp(buf, hdr);
    let x = level_x(buf, hdr, path, covr_box);
    let ps = level_ps(buf, hdr, path, covr_box);
    lemma_first_of(kids, path[0]);
    lemma_level_layout(buf, kids, j, hdp, x);
    if hdp.len() > 0 {
        lemma_box_bytes_one(hdlr(), 8, hdlr_body(), 0);
        assert(ps[0] == hdp[0]);
    } else {
        let p = hdr.payload();
        assert(has_kind(kids, hdlr()));
        let w = choose|i: int| 0 <= i < kids.len() && (#[trigger] kids[i]).kind == hdlr();
        assert(kids.len() > 0);
        lemma_first_kid_kind(buf, hdr);
        assert(kids[0].kind == hdlr());
        assert(j != 0);
        let take = kids.take(j);
        assert(take[0] == kids[0]);
        assert(ps[hdp.len() + 0int] == kid_bytes(buf, take)[0]);
        let b0 = kid_bytes(buf, take)[0];
        assert(b0 == buf.subrange(p, kids[0].end_pos()));
        assert(kind_at(b0, 4).0 =~= kind_at(buf, p + 4).0) by {
            assert(b0[4] == buf[p + 4]);
            assert(b0[5] == buf[p + 5]);
            assert(b0[6] == buf[p + 6]);
            assert(b0[7] == buf[p + 7]);
        }
    }
}

/// The first child of a container starts right after its prefix, and its
/// type is the four bytes after its size field.
proof fn lemma_first_kid_kind(buf: Seq<u8>, hdr: BoxHeader)
    requires
        hdr.wf(),
        hdr.end_pos() <= buf.len(),
        buf.len() <= u64::MAX,
        spec_container_children(buf, hdr) is Ok,
        spec_container_children(buf, hdr).unwrap().len() > 0,
    ensures
        ({
            let k = spec_container_children(buf, hdr).unwrap()[0];
            &&& k.offset == hdr.payload() + spec_prefix_len(buf, hdr)
            &&& k.end_pos() >= k.offset + 8
            &&& k.end_pos() <= buf.len()
            &&& k.kind == kind_at(buf, k.offset + 4)
        }),
{
    broadcast use vstd::array::group_array_axioms;

    let start = hdr.payload() + spec_prefix_len(buf, hdr);
    lemma_children_ok(buf, start, hdr.end_pos());
    lemma_children_parsed(buf, start, hdr.end_pos());
    let kids = spec_container_children(buf, hdr).unwrap();
    let k = kids[0];
    let lim = super::box_header::min(hdr.end_pos(), buf.len() as int);
    let data = buf.subrange(start, lim);
    assert(spec_parse(buf, start, hdr.end_pos()) == Ok::<_, Mp4Error>(Some(k)));
    assert(kind_at(data, 4).0 =~= kind_at(buf, start + 4).0) by {
        assert(data[4] == buf[start + 4]);
        assert(data[5] == buf[start + 5]);
        assert(data[6] == buf[start + 6]);
        assert(data[7] == buf[start + 7]);
    }
}

/// The pieces after the prefix of a rebuilt `ilst`: the kept items, then
/// the new cover.
#[verifier::opaque]
pub open spec fn ilst_ps(buf: Seq<u8>, hdr: BoxHeader, covr_box: Seq<u8>) -> Seq<Seq<u8>> {
    kid_bytes(buf, without_kind(level_kids(buf, hdr), covr())) + seq![covr_box]
}

/// A rebuilt `ilst` is its kept items, whole boxes none of which is a
/// cover, followed by the new cover.
#[verifier::rlimit(100)]
#[verifier::spinoff_prover]
proof fn lemma_ilst_facts(buf: Seq<u8>, hdr: BoxHeader, covr_box: Seq<u8>)
    requires
        hdr.wf(),
        hdr.end_pos() <= buf.len(),
        buf.len() + covr_box.len() + growth(3) + 16 <= u64::MAX,
        hdr.kind != meta(),
        cover_path_clean(buf, hdr, Seq::empty(), covr_box),
        one_box(covr_box),
        kind_at(covr_box, 4) == covr(),
        spec_rebuild(buf, hdr, Seq::empty(), covr_box) is Ok,
    ensures
        ({
            let ps = ilst_ps(buf, hdr, covr_box);
            &&& level_pre(buf, hdr) == Seq::<u8>::empty()
            &&& rebuilt_body(buf, hdr, Seq::empty(), covr_box) == Seq::<u8>::empty() + flat(ps)
            &&& all_boxes(ps)
            &&& ps.len() > 0
            &&& ps[ps.len() - 1] == covr_box
            &&& forall|i: int| 0 <= i < ps.len() - 1 ==> kind_at(#[trigger] ps[i], 4) != covr()
        }),
{
    reveal(rebuilt_body);
    reveal(ilst_ps);
    let path = Seq::<FourCc>::empty();
    lemma_rebuilt_body(buf, hdr, path, covr_box);
    lemma_children_fill(buf, hdr);
    let kids = level_kids(buf, hdr);
    let w = without_kind(kids, covr());
    let pre = level_pre(buf, hdr);
    assert(pre =~= Seq::<u8>::empty());
    let kb = kid_bytes(buf, w);
    let ps = ilst_ps(buf, hdr, covr_box);
    lemma_flat_concat(kb, seq![covr_box]);
    assert(flat(seq![covr_box]) =~= covr_box) by {
        assert(seq![covr_box].drop_first() =~= Seq::<Seq<u8>>::empty());
        assert(flat(Seq::<Seq<u8>>::empty()) == Seq::<u8>::empty());
        assert(flat(seq![covr_box]) == covr_box + flat(Seq::<Seq<u8>>::empty()));
    }
    lemma_spans_flat(buf, w);
    assert(rebuilt_body(buf, hdr, path, covr_box) =~= pre + flat(ps));
    lemma_sum_sizes_without(kids, covr());
    lemma_without_kind_kinds(kids, covr());
    lemma_kids_are_boxes(buf, hdr, w);
    assert forall|i: int| 0 <= i < ps.len() implies one_box(#[trigger] ps[i]) by {
        if i < kb.len() {
            assert(ps[i] == kb[i]);
            assert(kids.contains(w[i]));
            let t = choose|t: int| 0 <= t < kids.len() && kids[t] == w[i];
            assert(kids[t].kind != covr());
        }
    }
    assert forall|i: int| 0 <= i < ps.len() - 1 implies kind_at(#[trigger] ps[i], 4) != covr() by {
        assert(ps[i] == kb[i]);
    }
}

/// A rebuilt `ilst` placed in a buffer parses as itself, and its cover
/// items are the new cover alone.
#[verifier::rlimit(100)]
#[verifier::spinoff_prover]
proof fn lemma_rebuilt_ilst(
    buf: Seq<u8>,
    hdr: BoxHeader,
    covr_box: Seq<u8>,
    out_buf: Seq<u8>,
    q: int,
    lim: int,
) -> (c: int)
    requires
        hdr.wf(),
        hdr.end_pos() <= buf.len(),
        buf.len() + covr_box.len() + growth(3) + 16 <= u64::MAX,
        hdr.kind != meta(),
        cover_path_clean(buf, hdr, Seq::empty(), covr_box),
        one_box(covr_box),
        kind_at(covr_box, 4) == covr(),
        spec_rebuild(buf, hdr, Seq::empty(), covr_box) is Ok,
        out_buf.len() <= u64::MAX,
        0 <= q,
        q + spec_rebuild(buf, hdr, Seq::empty(), covr_box).unwrap().0.len() <= lim,
        q + spec_rebuild(buf, hdr, Seq::empty(), covr_box).unwrap().0.len() <= out_buf.len(),
        out_buf.subrange(q, q + spec_rebuild(buf, hdr, Seq::empty(), covr_box).unwrap().0.len())
            == spec_rebuild(buf, hdr, Seq::empty(), covr_box).unwrap().0,
    ensures
        ({
            let s = spec_rebuild(buf, hdr, Seq::empty(), covr_box).unwrap().0;
            let h = header_of(s, q);
            &&& one_box(s)
            &&& h.kind == hdr.kind
            &&& h.wf()
            &&& spec_parse(out_buf, q, lim) == Ok::<_, Mp4Error>(Some(h))
            &&& descend(out_buf, h, Seq::empty(), Gather::CoverItems) == Ok::<_, Mp4Error>(
                seq![header_of(covr_box, c)],
            )
            &&& q <= c
            &&& c + covr_box.len() <= q + s.len()
            &&& out_buf.subrange(c, c + covr_box.len()) == covr_box
        }),
{
    let path = Seq::<FourCc>::empty();
    lemma_rebuilt_body(buf, hdr, path, covr_box);
    lemma_rebuild_len(buf, hdr, path, covr_box);
    lemma_ilst_facts(buf, hdr, covr_box);
    let ps = ilst_ps(buf, hdr, covr_box);
    let pre = Seq::<u8>::empty();
    let r = spec_rebuild(buf, hdr, path, covr_box).unwrap().0;
    lemma_box_bytes_shape(hdr.kind, hdr.header_len, pre + flat(ps));
    lemma_container_pieces(out_buf, q, lim, hdr.kind, hdr.header_len, pre, ps);
    let h = header_of(r, q);
    let start = h.payload();
    assert(spec_prefix_len(out_buf, h) == 0);
    assert(h.end_pos() == start + flat(ps).len());
    lemma_last_cover_only(out_buf, h, ps, start, covr_box)
}

/// A container whose children are the boxes `ps`, of which only the last
/// is a cover, and that one is `covr_box`: its cover items are that one.
#[verifier::rlimit(60)]
proof fn lemma_last_cover_only(
    out_buf: Seq<u8>,
    h: BoxHeader,
    ps: Seq<Seq<u8>>,
    start: int,
    covr_box: Seq<u8>,
) -> (c: int)
    requires
        ps.len() > 0,
        ps[ps.len() - 1] == covr_box,
        kind_at(covr_box, 4) == covr(),
        forall|i: int| 0 <= i < ps.len() - 1 ==> kind_at(#[trigger] ps[i], 4) != covr(),
        spec_container_children(out_buf, h) == Ok::<_, Mp4Error>(headers_of(ps, start)),
        0 <= start,
        start + flat(ps).len() <= out_buf.len(),
        h.end_pos() == start + flat(ps).len(),
        out_buf.subrange(start, start + flat(ps).len()) == flat(ps),
    ensures
        descend(out_buf, h, Seq::empty(), Gather::CoverItems) == Ok::<_, Mp4Error>(
            seq![header_of(covr_box, c)],
        ),
        start <= c,
        c + covr_box.len() <= h.end_pos(),
        out_buf.subrange(c, c + covr_box.len()) == covr_box,
{
    lemma_headers_kinds(ps, start);
    let hs = headers_of(ps, start);
    assert forall|i: int| 0 <= i < hs.len() - 1 implies (#[trigger] hs[i]).kind != covr() by {
        assert(hs[i].kind == kind_at(ps[i], 4));
    }
    assert(hs.last() == hs[hs.len() - 1]);
    lemma_only_kind_last(hs, covr());
    let m = ps.len() - 1;
    lemma_flat_at(ps, m, start);
    let before: int = flat(ps.take(m)).len() as int;
    let c = start + before;
    assert(out_buf.subrange(c, c + covr_box.len()) =~= flat(ps).subrange(before, before + covr_box.len() as int));
    c
}

/// A container of `buf` rebuilt along `path`, placed at `q` in `out_buf`,
/// parses as one box of its type, and the walk along `path` from it finds
/// the new cover alone.
pub proof fn lemma_rebuilt_holds_cover(
    buf: Seq<u8>,
    hdr: BoxHeader,
    path: Seq<FourCc>,
    covr_box: Seq<u8>,
    out_buf: Seq<u8>,
    q: int,
    lim: int,
) -> (c: int)
    requires
        hdr.wf(),
        hdr.end_pos() <= buf.len(),
        buf.len() + covr_box.len() + growth(3) + 16 <= u64::MAX,
        cover_level(path),
        hdr.kind == meta() <==> path.len() == 1,
        cover_path_clean(buf, hdr, path, covr_box),
        one_box(covr_box),
        kind_at(covr_box, 4) == covr(),
        spec_rebuild(buf, hdr, path, covr_box) is Ok,
        out_buf.len() <= u64::MAX,
        0 <= q,
        q + spec_rebuild(buf, hdr, path, covr_box).unwrap().0.len() <= lim,
        q + spec_rebuild(buf, hdr, path, covr_box).unwrap().0.len() <= out_buf.len(),
        out_buf.subrange(q, q + spec_rebuild(buf, hdr, path, covr_box).unwrap().0.len())
            == spec_rebuild(buf, hdr, path, covr_box).unwrap().0,
    ensures
        ({
            let s = spec_rebuild(buf, hdr, path, covr_box).unwrap().0;
            let h = header_of(s, q);
            &&& one_box(s)
            &&& h.kind == hdr.kind
            &&& h.wf()
            &&& spec_parse(out_buf, q, lim) == Ok::<_, Mp4Error>(Some(h))
            &&& descend(out_buf, h, path, Gather::CoverItems) == Ok::<_, Mp4Error>(
                seq![header_of(covr_box, c)],
            )
            &&& q <= c
            &&& c + covr_box.len() <= q + s.len()
            &&& out_buf.subrange(c, c + covr_box.len()) == covr_box
        }),
    decreases path.len(), 2nat,
{
    if path.len() == 0 {
        assert(path =~= Seq::<FourCc>::empty());
        lemma_rebuilt_ilst(buf, hdr, covr_box, out_buf, q, lim)
    } else {
        lemma_rebuilt_step(buf, hdr, path, covr_box, out_buf, q, lim)
    }
}

/// [`lemma_rebuilt_holds_cover`] above `ilst`.
#[verifier::rlimit(100)]
#[verifier::spinoff_prover]
proof fn lemma_rebuilt_step(
    buf: Seq<u8>,
    hdr: BoxHeader,
    path: Seq<FourCc>,
    covr_box: Seq<u8>,
    out_buf: Seq<u8>,
    q: int,
    lim: int,
) -> (c: int)
    requires
        path.len() > 0,
        hdr.wf(),
        hdr.end_pos() <= buf.len(),
        buf.len() + covr_box.len() + growth(3) + 16 <= u64::MAX,
        cover_level(path),
        hdr.kind == meta() <==> path.len() == 1,
        cover_path_clean(buf, hdr, path, covr_box),
        one_box(covr_box),
        kind_at(covr_box, 4) == covr(),
        spec_rebuild(buf, hdr, path, covr_box) is Ok,
        out_buf.len() <= u64::MAX,
        0 <= q,
        q + spec_rebuild(buf, hdr, path, covr_box).unwrap().0.len() <= lim,
        q + spec_rebuild(buf, hdr, path, covr_box).unwrap().0.len() <= out_buf.len(),
        out_buf.subrange(q, q + spec_rebuild(buf, hdr, path, covr_box).unwrap().0.len())
            == spec_rebuild(buf, hdr, path, covr_box).unwrap().0,
    ensures
        ({
            let s = spec_rebuild(buf, hdr, path, covr_box).unwrap().0;
            let h = header_of(s, q);
            &&& one_box(s)
            &&& h.kind == hdr.kind
            &&& h.wf()
            &&& spec_parse(out_buf, q, lim) == Ok::<_, Mp4Error>(Some(h))
            &&& descend(out_buf, h, path, Gather::CoverItems) == Ok::<_, Mp4Error>(
                seq![header_of(covr_box, c)],
            )
            &&& q <= c
            &&& c + covr_box.len() <= q + s.len()
            &&& out_buf.subrange(c, c + covr_box.len()) == covr_box
        }),
    decreases path.len(), 1nat,
{
    let r = spec_rebuild(buf, hdr, path, covr_box).unwrap().0;
    lemma_rebuilt_body(buf, hdr, path, covr_box);
    lemma_rebuild_len(buf, hdr, path, covr_box);
    lemma_level_facts(buf, hdr, path, covr_box);
    lemma_children_fill(buf, hdr);
    lemma_cover_kinds();
    lemma_cover_level(path);
    let kids = level_kids(buf, hdr);
    let j = level_j(buf, hdr, path);
    lemma_first_of(kids, path[0]);
    let ps = level_ps(buf, hdr, path, covr_box);
    let pre = level_pre(buf, hdr);
    let m = level_hdp(buf, hdr).len() + j;
    let x = level_x(buf, hdr, path, covr_box);
    lemma_level_placed(buf, hdr, path, covr_box, out_buf, q, lim);
    let h = header_of(r, q);
    let start = h.payload() + pre.len();
    let hs = headers_of(ps, start);
    assert(spec_container_children(out_buf, h) == Ok::<_, Mp4Error>(hs));
    lemma_headers_kinds(ps, start);
    lemma_flat_at(ps, m, start);
    let before: int = flat(ps.take(m)).len() as int;
    let pos = start + before;
    assert(out_buf.subrange(pos, pos + x.len()) =~= flat(ps).subrange(before, before + x.len() as int));
    assert(hs[m] == header_of(x, pos));
    let c = lemma_level_child(buf, hdr, path, covr_box, out_buf, pos, h.end_pos());
    assert forall|i: int| 0 <= i < hs.len() && i != m implies #[trigger] adds_nothing(
        out_buf,
        hs[i],
        path,
        Gather::CoverItems,
    ) by {
        assert(hs[i].kind == kind_at(ps[i], 4));
        if i > m {
            lemma_later_kid_nothing(buf, hdr, path, covr_box, out_buf, start, i);
        }
    }
    lemma_descend_list_one(out_buf, hs, path, Gather::CoverItems, m);
    c
}

/// A child after the rebuilt one, copied whole into a rebuilt level laid
/// out at `start`, adds nothing to the walk for the cover.
#[verifier::rlimit(100)]
#[verifier::spinoff_prover]
pub proof fn lemma_later_kid_nothing(
    buf: Seq<u8>,
    hdr: BoxHeader,
    path: Seq<FourCc>,
    covr_box: Seq<u8>,
    out_buf: Seq<u8>,
    start: int,
    i: int,
)
    requires
        path.len() > 0,
        hdr.wf(),
        hdr.end_pos() <= buf.len(),
        buf.len() + covr_box.len() + growth(3) + 16 <= u64::MAX,
        cover_level(path),
        hdr.kind == meta() <==> path.len() == 1,
        cover_path_clean(buf, hdr, path, covr_box),
        one_box(covr_box),
        kind_at(covr_box, 4) == covr(),
        spec_rebuild(buf, hdr, path, covr_box) is Ok,
        out_buf.len() <= u64::MAX,
        0 <= start,
        start + flat(level_ps(buf, hdr, path, covr_box)).len() <= out_buf.len(),
        out_buf.subrange(start, start + flat(level_ps(buf, hdr, path, covr_box)).len()) == flat(
            level_ps(buf, hdr, path, covr_box),
        ),
        level_hdp(buf, hdr).len() + level_j(buf, hdr, path) < i < level_ps(buf, hdr, path, covr_box).len(),
    ensures
        adds_nothing(out_buf, headers_of(level_ps(buf, hdr, path, covr_box), start)[i], path, Gather::CoverItems),
        headers_of(level_ps(buf, hdr, path, covr_box), start)[i].kind == path[0] ==> holds_no_cover(
            out_buf,
            headers_of(level_ps(buf, hdr, path, covr_box), start)[i],
            path.drop_first(),
        ),
{
    lemma_level_facts(buf, hdr, path, covr_box);
    let ps = level_ps(buf, hdr, path, covr_box);
    let hs = headers_of(ps, start);
    lemma_headers_kinds(ps, start);
    let kids = level_kids(buf, hdr);
    let k = kids[i - level_hdp(buf, hdr).len()];
    assert(hs[i].kind == kind_at(ps[i], 4));
    if hs[i].kind == path[0] {
        lemma_flat_at(ps, i, start);
        let l = flat(ps.take(i)).len() as int;
        let qi = start + l;
        lemma_parsed_one_box(buf, k.offset as int, hdr.end_pos(), qi);
        lemma_parse_ok(buf, k.offset as int, hdr.end_pos());
        assert(hs[i] == moved(k, qi - k.offset));
        assert(out_buf.subrange(qi, qi + ps[i].len()) =~= flat(ps).subrange(l, l + ps[i].len()));
        lemma_no_cover_moved(buf, k, path.drop_first(), out_buf, qi - k.offset);
        lemma_no_cover_empty(out_buf, hs[i], path.drop_first());
    }
}

/// A container rebuilt above `ilst`, placed at `q`, parses as itself and
/// its children are the headers of its pieces.
#[verifier::rlimit(100)]
#[verifier::spinoff_prover]
pub proof fn lemma_level_placed(
    buf: Seq<u8>,
    hdr: BoxHeader,
    path: Seq<FourCc>,
    covr_box: Seq<u8>,
    out_buf: Seq<u8>,
    q: int,
    lim: int,
)
    requires
        path.len() > 0,
        hdr.wf(),
        hdr.end_pos() <= buf.len(),
        buf.len() + covr_box.len() + growth(3) + 16 <= u64::MAX,
        cover_level(path),
        hdr.kind == meta() <==> path.len() == 1,
        cover_path_clean(buf, hdr, path, covr_box),
        one_box(covr_box),
        kind_at(covr_box, 4) == covr(),
        spec_rebuild(buf, hdr, path, covr_box) is Ok,
        out_buf.len() <= u64::MAX,
        0 <= q,
        q + spec_rebuild(buf, hdr, path, covr_box).unwrap().0.len() <= lim,
        q + spec_rebuild(buf, hdr, path, covr_box).unwrap().0.len() <= out_buf.len(),
        out_buf.subrange(q, q + spec_rebuild(buf, hdr, path, covr_box).unwrap().0.len())
            == spec_rebuild(buf, hdr, path, covr_box).unwrap().0,
    ensures
        ({
            let s = spec_rebuild(buf, hdr, path, covr_box).unwrap().0;
            let h = header_of(s, q);
            let ps = level_ps(buf, hdr, path, covr_box);
            let start = h.payload() + level_pre(buf, hdr).len();
            &&& one_box(s)
            &&& h.kind == hdr.kind
            &&& h.wf()
            &&& spec_parse(out_buf, q, lim) == Ok::<_, Mp4Error>(Some(h))
            &&& h.end_pos() == start + flat(ps).len()
            &&& h.end_pos() == q + s.len()
            &&& start + flat(ps).len() <= out_buf.len()
            &&& out_buf.subrange(start, h.end_pos()) == flat(ps)
            &&& spec_container_children(out_buf, h) == Ok::<_, Mp4Error>(headers_of(ps, start))
        }),
{
    let r = spec_rebuild(buf, hdr, path, covr_box).unwrap().0;
    lemma_rebuilt_body(buf, hdr, path, covr_box);
    lemma_rebuild_len(buf, hdr, path, covr_box);
    lemma_level_facts(buf, hdr, path, covr_box);
    let ps = level_ps(buf, hdr, path, covr_box);
    let pre = level_pre(buf, hdr);
    lemma_box_bytes_shape(hdr.kind, hdr.header_len, pre + flat(ps));
    lemma_container_pieces(out_buf, q, lim, hdr.kind, hdr.header_len, pre, ps);
    let h = header_of(r, q);
    let start = h.payload() + pre.len();
    if hdr.kind == meta() {
        if pre.len() == 0 {
            lemma_level_first(buf, hdr, path, covr_box);
        }
        assert(flat(ps) == ps[0] + flat(ps.drop_first()));
        lemma_meta_first_piece(buf, hdr, path, covr_box);
        lemma_prefix_kept(out_buf, h, pre, ps);
    }
}

/// The rebuilt or created child of a level, placed at `pos`, holds the
/// cover alone.
#[verifier::rlimit(60)]
pub proof fn lemma_level_child(
    buf: Seq<u8>,
    hdr: BoxHeader,
    path: Seq<FourCc>,
    covr_box: Seq<u8>,
    out_buf: Seq<u8>,
    pos: int,
    lim: int,
) -> (c: int)
    requires
        path.len() > 0,
        hdr.wf(),
        hdr.end_pos() <= buf.len(),
        buf.len() + covr_box.len() + growth(3) + 16 <= u64::MAX,
        cover_level(path),
        cover_path_clean(buf, hdr, path, covr_box),
        one_box(covr_box),
        kind_at(covr_box, 4) == covr(),
        spec_rebuild(buf, hdr, path, covr_box) is Ok,
        out_buf.len() <= u64::MAX,
        0 <= pos,
        pos + level_x(buf, hdr, path, covr_box).len() <= lim,
        pos + level_x(buf, hdr, path, covr_box).len() <= out_buf.len(),
        out_buf.subrange(pos, pos + level_x(buf, hdr, path, covr_box).len()) == level_x(
            buf,
            hdr,
            path,
            covr_box,
        ),
    ensures
        ({
            let x = level_x(buf, hdr, path, covr_box);
            &&& descend(out_buf, header_of(x, pos), path.drop_first(), Gather::CoverItems)
                == Ok::<_, Mp4Error>(seq![header_of(covr_box, c)])
            &&& pos <= c
            &&& c + covr_box.len() <= pos + x.len()
            &&& out_buf.subrange(c, c + covr_box.len()) == covr_box
        }),
    decreases path.len(), 0nat,
{
    lemma_rebuilt_body(buf, hdr, path, covr_box);
    lemma_children_fill(buf, hdr);
    lemma_cover_kinds();
    lemma_cover_level(path);
    let kids = level_kids(buf, hdr);
    let j = level_j(buf, hdr, path);
    lemma_first_of(kids, path[0]);
    if j < kids.len() {
        lemma_rebuilt_holds_cover(buf, kids[j], path.drop_first(), covr_box, out_buf, pos, lim)
    } else {
        assert(path =~= seq![path[0]] + path.drop_first());
        lemma_synth_holds_cover(path[0], path.drop_first(), covr_box, out_buf, pos, lim)
    }
}

/// Replacing the cover of a `moov` gives a `moov` in which the walk
/// `udta/meta/ilst` finds exactly one cover item, and that item is the new
/// cover, byte for byte; the result is one `moov` box with the input's
/// header length, widened to the 16-byte form where the result outgrows a
/// 32-bit size. Stated for a cover that is one `covr` box and a `moov` whose
/// walk is clean (see [`cover_path_clean`]).
pub proof fn law_replace_cover_single_cover(moov_buf: Seq<u8>, covr_box: Seq<u8>)
    requires
        one_box(covr_box),
        kind_at(covr_box, 4) == covr(),
        moov_buf.len() + covr_box.len() + growth(3) + 16 <= u64::MAX,
        spec_moov_header(moov_buf) matches Ok(h) ==> cover_path_clean(moov_buf, h, covers_path(), covr_box),
        spec_replace_cover(moov_buf, covr_box) is Ok,
    ensures
        ({
            let out = spec_replace_cover(moov_buf, covr_box).unwrap().0;
            &&& spec_moov_header(out) == Ok::<_, Mp4Error>(
                BoxHeader {
                    kind: moov(),
                    offset: 0,
                    size: out.len() as u64,
                    header_len: if spec_moov_header(moov_buf).unwrap().header_len == 16 || out.len()
                        > u32::MAX {
                        16
                    } else {
                        8
                    },
                },
            )
            &&& spec_find_covr(out) matches Ok(cs) && cs.len() == 1 && cs[0].size == covr_box.len()
                && out.subrange(cs[0].offset as int, cs[0].end_pos()) == covr_box
        }),
{
    broadcast use vstd::array::group_array_axioms;

    lemma_moov_header_ok(moov_buf);
    let h = spec_moov_header(moov_buf).unwrap();
    let out = spec_replace_cover(moov_buf, covr_box).unwrap().0;
    assert(covers_path().skip(0) =~= covers_path());
    assert(moov() != meta()) by {
        assert(moov().0[1] != meta().0[1]);
    }
    assert(out.subrange(0, out.len() as int) =~= out);
    lemma_rebuild_len(moov_buf, h, covers_path(), covr_box);
    let c = lemma_rebuilt_holds_cover(moov_buf, h, covers_path(), covr_box, out, 0, out.len() as int);
    let h2 = header_of(out, 0);
    assert(spec_moov_header(out) == Ok::<_, Mp4Error>(h2));
    lemma_rebuilt_body(moov_buf, h, covers_path(), covr_box);
    let body = rebuilt_body(moov_buf, h, covers_path(), covr_box);
    lemma_box_bytes_shape(h.kind, h.header_len, body);
    lemma_box_bytes_one(h.kind, h.header_len, body, 0);
    assert(out == box_bytes(h.kind, h.header_len, body));
    assert(spec_find_covr(out) == Ok::<_, Mp4Error>(seq![header_of(covr_box, c)]));
}

} // verus!
