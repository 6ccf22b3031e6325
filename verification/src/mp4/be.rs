//! Big-endian integer fields, as ISO-BMFF stores them, and the byte-buffer
//! helpers that the box code is written with.

use vstd::prelude::*;

verus! {

/// Value of the big-endian `u32` stored at `s[p..p + 4]`.
pub open spec fn be32(s: Seq<u8>, p: int) -> int {
    s[p] * 0x100_0000 + s[p + 1] * 0x1_0000 + s[p + 2] * 0x100 + s[p + 3]
}

/// Value of the big-endian `u64` stored at `s[p..p + 8]`.
pub open spec fn be64(s: Seq<u8>, p: int) -> int {
    be32(s, p) * 0x1_0000_0000 + be32(s, p + 4)
}

/// Big-endian encoding of `v` (which must be below 2^32) on four bytes.
pub open spec fn u32_bytes(v: int) -> Seq<u8> {
    seq![
        (v / 0x100_0000) as u8,
        ((v / 0x1_0000) % 0x100) as u8,
        ((v / 0x100) % 0x100) as u8,
        (v % 0x100) as u8,
    ]
}

/// Big-endian encoding of `v` (which must be below 2^64) on eight bytes.
pub open spec fn u64_bytes(v: int) -> Seq<u8> {
    u32_bytes(v / 0x1_0000_0000) + u32_bytes(v % 0x1_0000_0000)
}

/// `s` with `bytes` written over it starting at `p`.
pub open spec fn splice(s: Seq<u8>, p: int, bytes: Seq<u8>) -> Seq<u8> {
    s.subrange(0, p) + bytes + s.subrange(p + bytes.len(), s.len() as int)
}

/// Decoding a big-endian `u32` gives back what was encoded.
pub proof fn lemma_u32_roundtrip(v: int)
    requires
        0 <= v < 0x1_0000_0000,
    ensures
        u32_bytes(v).len() == 4,
        be32(u32_bytes(v), 0) == v,
{
    let b = u32_bytes(v);
    assert(b[0] as int == v / 0x100_0000);
    assert(b[1] as int == (v / 0x1_0000) % 0x100);
    assert(b[2] as int == (v / 0x100) % 0x100);
    assert(b[3] as int == v % 0x100);
}

/// Decoding a big-endian `u64` gives back what was encoded.
pub proof fn lemma_u64_roundtrip(v: int)
    requires
        0 <= v < 0x1_0000_0000_0000_0000,
    ensures
        u64_bytes(v).len() == 8,
        be64(u64_bytes(v), 0) == v,
{
    let hi = v / 0x1_0000_0000;
    let lo = v % 0x1_0000_0000;
    lemma_u32_roundtrip(hi);
    lemma_u32_roundtrip(lo);
    let b = u64_bytes(v);
    assert(b.subrange(0, 4) =~= u32_bytes(hi));
    assert(b.subrange(4, 8) =~= u32_bytes(lo));
    assert(be32(b, 0) == be32(u32_bytes(hi), 0));
    assert(be32(b, 4) == be32(u32_bytes(lo), 0));
}

/// A big-endian field read from a buffer depends only on its own bytes.
pub proof fn lemma_be32_window(s: Seq<u8>, p: int, t: Seq<u8>, q: int)
    requires
        0 <= p,
        p + 4 <= s.len(),
        0 <= q,
        q + 4 <= t.len(),
        s.subrange(p, p + 4) == t.subrange(q, q + 4),
    ensures
        be32(s, p) == be32(t, q),
{
    assert(s[p] == s.subrange(p, p + 4)[0]);
    assert(s[p + 1] == s.subrange(p, p + 4)[1]);
    assert(s[p + 2] == s.subrange(p, p + 4)[2]);
    assert(s[p + 3] == s.subrange(p, p + 4)[3]);
    assert(t[q] == t.subrange(q, q + 4)[0]);
    assert(t[q + 1] == t.subrange(q, q + 4)[1]);
    assert(t[q + 2] == t.subrange(q, q + 4)[2]);
    assert(t[q + 3] == t.subrange(q, q + 4)[3]);
}

/// Read the big-endian `u32` at `s[p..p + 4]`.
pub fn read_u32(s: &[u8], p: usize) -> (r: u32)
    requires
        p + 4 <= s@.len(),
    ensures
        r as int == be32(s@, p as int),
{
    (s[p] as u32) * 0x100_0000 + (s[p + 1] as u32) * 0x1_0000 + (s[p + 2] as u32) * 0x100 + (
    s[p + 3] as u32)
}

/// Read the big-endian `u64` at `s[p..p + 8]`.
pub fn read_u64(s: &[u8], p: usize) -> (r: u64)
    requires
        p + 8 <= s@.len(),
    ensures
        r as int == be64(s@, p as int),
{
    let _ = s.len();
    let hi = read_u32(s, p) as u64;
    let lo = read_u32(s, p + 4) as u64;
    hi * 0x1_0000_0000 + lo
}

/// Append the big-endian encoding of `v`.
pub fn push_u32(out: &mut Vec<u8>, v: u32)
    ensures
        final(out)@ == old(out)@ + u32_bytes(v as int),
{
    out.push((v / 0x100_0000) as u8);
    out.push(((v / 0x1_0000) % 0x100) as u8);
    out.push(((v / 0x100) % 0x100) as u8);
    out.push((v % 0x100) as u8);
    assert(final(out)@ =~= old(out)@ + u32_bytes(v as int));
}

/// Append the big-endian encoding of `v`.
pub fn push_u64(out: &mut Vec<u8>, v: u64)
    ensures
        final(out)@ == old(out)@ + u64_bytes(v as int),
{
    push_u32(out, (v / 0x1_0000_0000) as u32);
    push_u32(out, (v % 0x1_0000_0000) as u32);
    assert(final(out)@ =~= old(out)@ + u64_bytes(v as int));
}

/// Append every byte of `src`.
pub fn push_all(out: &mut Vec<u8>, src: &[u8])
    ensures
        final(out)@ == old(out)@ + src@,
{
    let ghost start = out@;
    let mut i: usize = 0;
    while i < src.len()
        invariant
            i <= src@.len(),
            out@ == start + src@.subrange(0, i as int),
        decreases src@.len() - i,
    {
        out.push(src[i]);
        i = i + 1;
        assert(out@ =~= start + src@.subrange(0, i as int));
    }
    assert(src@.subrange(0, src@.len() as int) =~= src@);
}

/// Append every byte of `src[from..to]`.
pub fn push_range(out: &mut Vec<u8>, src: &[u8], from: usize, to: usize)
    requires
        from <= to <= src@.len(),
    ensures
        final(out)@ == old(out)@ + src@.subrange(from as int, to as int),
{
    let ghost start = out@;
    let mut i: usize = from;
    while i < to
        invariant
            from <= i <= to,
            to <= src@.len(),
            out@ == start + src@.subrange(from as int, i as int),
        decreases to - i,
    {
        out.push(src[i]);
        i = i + 1;
        assert(out@ =~= start + src@.subrange(from as int, i as int));
    }
}

/// Append `n` zero bytes.
pub fn push_zeros(out: &mut Vec<u8>, n: usize)
    ensures
        final(out)@ == old(out)@ + Seq::new(n as nat, |i: int| 0u8),
{
    let ghost start = out@;
    let mut i: usize = 0;
    while i < n
        invariant
            i <= n,
            out@ == start + Seq::new(i as nat, |j: int| 0u8),
        decreases n - i,
    {
        out.push(0);
        i = i + 1;
        assert(out@ =~= start + Seq::new(i as nat, |j: int| 0u8));
    }
}

/// Write the big-endian encoding of `v` over `buf[p..p + 4]`.
pub fn write_u32_at(buf: &mut Vec<u8>, p: usize, v: u32)
    requires
        p + 4 <= old(buf)@.len(),
    ensures
        final(buf)@ == splice(old(buf)@, p as int, u32_bytes(v as int)),
{
    let _ = buf.len();
    buf.set(p, (v / 0x100_0000) as u8);
    buf.set(p + 1, ((v / 0x1_0000) % 0x100) as u8);
    buf.set(p + 2, ((v / 0x100) % 0x100) as u8);
    buf.set(p + 3, (v % 0x100) as u8);
    assert(final(buf)@ =~= splice(old(buf)@, p as int, u32_bytes(v as int)));
}

/// Write the big-endian encoding of `v` over `buf[p..p + 8]`.
pub fn write_u64_at(buf: &mut Vec<u8>, p: usize, v: u64)
    requires
        p + 8 <= old(buf)@.len(),
    ensures
        final(buf)@ == splice(old(buf)@, p as int, u64_bytes(v as int)),
{
    let _ = buf.len();
    write_u32_at(buf, p, (v / 0x1_0000_0000) as u32);
    write_u32_at(buf, p + 4, (v % 0x1_0000_0000) as u32);
    assert(final(buf)@ =~= splice(old(buf)@, p as int, u64_bytes(v as int)));
}

} // verus!
