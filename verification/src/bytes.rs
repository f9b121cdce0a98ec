//! Little- and big-endian integers as bytes.

use vstd::prelude::*;

verus! {

/// `x` as four little-endian bytes.
pub open spec fn le32(x: int) -> Seq<u8> {
    seq![
        (x % 256) as u8,
        ((x / 256) % 256) as u8,
        ((x / 65536) % 256) as u8,
        ((x / 16777216) % 256) as u8,
    ]
}

/// `x` as two little-endian bytes.
pub open spec fn le16(x: int) -> Seq<u8> {
    seq![(x % 256) as u8, ((x / 256) % 256) as u8]
}

/// `x` as four big-endian bytes.
pub open spec fn be32(x: int) -> Seq<u8> {
    seq![
        ((x / 16777216) % 256) as u8,
        ((x / 65536) % 256) as u8,
        ((x / 256) % 256) as u8,
        (x % 256) as u8,
    ]
}

/// The big-endian number that the four bytes of `s` from `i` on spell.
pub open spec fn be32_at(s: Seq<u8>, i: int) -> int {
    s[i] * 16777216 + s[i + 1] * 65536 + s[i + 2] * 256 + s[i + 3]
}

/// A reader gets back the number that [`be32`] wrote.
pub proof fn lemma_be32_reads_back(x: int)
    requires
        0 <= x <= u32::MAX,
    ensures
        be32_at(be32(x), 0) == x,
{
    let y = x as u32;
    assert(((y / 16777216) % 256) as u8 as int * 16777216 + ((y / 65536) % 256) as u8 as int * 65536
        + ((y / 256) % 256) as u8 as int * 256 + (y % 256) as u8 as int == y as int) by (bit_vector);
}

/// `n` zero bytes.
pub open spec fn zeros(n: int) -> Seq<u8> {
    Seq::new(if n < 0 { 0 } else { n as nat }, |i: int| 0u8)
}

/// Append `x` as four little-endian bytes.
pub fn push_le32(out: &mut Vec<u8>, x: u32)
    ensures
        final(out)@ == old(out)@ + le32(x as int),
{
    out.push((x % 256) as u8);
    out.push(((x / 256) % 256) as u8);
    out.push(((x / 65536) % 256) as u8);
    out.push(((x / 16777216) % 256) as u8);
    assert(final(out)@ =~= old(out)@ + le32(x as int));
}

/// Append `x` as two little-endian bytes.
pub fn push_le16(out: &mut Vec<u8>, x: u16)
    ensures
        final(out)@ == old(out)@ + le16(x as int),
{
    out.push((x % 256) as u8);
    out.push(((x / 256) % 256) as u8);
    assert(final(out)@ =~= old(out)@ + le16(x as int));
}

/// Append `x` as four big-endian bytes.
pub fn push_be32(out: &mut Vec<u8>, x: u32)
    ensures
        final(out)@ == old(out)@ + be32(x as int),
{
    out.push(((x / 16777216) % 256) as u8);
    out.push(((x / 65536) % 256) as u8);
    out.push(((x / 256) % 256) as u8);
    out.push((x % 256) as u8);
    assert(final(out)@ =~= old(out)@ + be32(x as int));
}

/// Append `n` zero bytes.
pub fn push_zeros(out: &mut Vec<u8>, n: usize)
    ensures
        final(out)@ == old(out)@ + zeros(n as int),
{
    let mut k: usize = 0;
    while k < n
        invariant
            k <= n,
            out@ == old(out)@ + zeros(k as int),
        decreases n - k,
    {
        out.push(0);
        assert(old(out)@ + zeros(k + 1) =~= old(out)@ + zeros(k as int) + seq![0u8]);
        k += 1;
    }
}

/// Append every byte of `data`.
pub fn push_all(out: &mut Vec<u8>, data: &[u8])
    ensures
        final(out)@ == old(out)@ + data@,
{
    let mut k: usize = 0;
    while k < data.len()
        invariant
            k <= data.len(),
            out@ == old(out)@ + data@.take(k as int),
        decreases data.len() - k,
    {
        out.push(data[k]);
        assert(data@.take(k + 1) =~= data@.take(k as int).push(data@[k as int]));
        k += 1;
    }
    assert(data@.take(data.len() as int) =~= data@);
}

} // verus!
