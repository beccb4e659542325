//! Little-endian 32-bit fields and byte ranges, the primitives that the
//! archive format is assembled from.

use vstd::prelude::*;

verus! {

/// The four bytes of `x`, least significant first.
pub open spec fn u32_le(x: u32) -> Seq<u8> {
    seq![
        (x % 256) as u8,
        (x / 256 % 256) as u8,
        (x / 65536 % 256) as u8,
        (x / 16777216) as u8,
    ]
}

/// The unsigned value of the four bytes of `s` that start at `pos`, least
/// significant first.
pub open spec fn le_u32_at(s: Seq<u8>, pos: int) -> u32
    recommends
        0 <= pos,
        pos + 4 <= s.len(),
{
    (s[pos] as int + 256 * (s[pos + 1] as int) + 65536 * (s[pos + 2] as int) + 16777216 * (s[pos
        + 3] as int)) as u32
}

/// Reading back what `u32_le` wrote gives the value that was written.
pub proof fn lemma_u32_le_round_trip(x: u32)
    ensures
        u32_le(x).len() == 4,
        le_u32_at(u32_le(x), 0) == x,
{
}

/// A field that holds the bytes of `x` reads as `x`, wherever it lies.
pub proof fn lemma_le_u32_at_field(s: Seq<u8>, pos: int, x: u32)
    requires
        0 <= pos,
        pos + 4 <= s.len(),
        s.subrange(pos, pos + 4) == u32_le(x),
    ensures
        le_u32_at(s, pos) == x,
{
    let f = s.subrange(pos, pos + 4);
    assert(f[0] == s[pos] && f[1] == s[pos + 1] && f[2] == s[pos + 2] && f[3] == s[pos + 3]);
    lemma_u32_le_round_trip(x);
}

/// Appends the little-endian bytes of `x` to `out`.
pub fn push_u32_le(out: &mut Vec<u8>, x: u32)
    ensures
        final(out)@ == old(out)@ + u32_le(x),
{
    out.push((x % 256) as u8);
    out.push((x / 256 % 256) as u8);
    out.push((x / 65536 % 256) as u8);
    out.push((x / 16777216) as u8);
    assert(out@ =~= old(out)@ + u32_le(x));
}

/// Reads the little-endian 32-bit field of `buf` that starts at `pos`.
pub fn read_u32_le(buf: &Vec<u8>, pos: usize) -> (r: u32)
    requires
        pos + 4 <= buf@.len(),
    ensures
        r == le_u32_at(buf@, pos as int),
{
    let len: usize = buf.len();
    assert(pos + 4 <= len);
    let b0: u32 = buf[pos] as u32;
    let b1: u32 = buf[pos + 1] as u32;
    let b2: u32 = buf[pos + 2] as u32;
    let b3: u32 = buf[pos + 3] as u32;
    b0 + 256 * b1 + 65536 * b2 + 16777216 * b3
}

/// Copies the bytes of `buf` from `start` up to `end` into a buffer of their own.
pub fn copy_range(buf: &Vec<u8>, start: usize, end: usize) -> (r: Vec<u8>)
    requires
        start <= end <= buf@.len(),
    ensures
        r@ == buf@.subrange(start as int, end as int),
{
    let mut r: Vec<u8> = Vec::new();
    let mut i: usize = start;
    while i < end
        invariant
            start <= i <= end <= buf@.len(),
            r@ == buf@.subrange(start as int, i as int),
        decreases end - i,
    {
        r.push(buf[i]);
        i += 1;
        assert(r@ =~= buf@.subrange(start as int, i as int));
    }
    r
}

/// Appends all of `bytes` to `out`.
pub fn push_all(out: &mut Vec<u8>, bytes: &[u8])
    ensures
        final(out)@ == old(out)@ + bytes@,
{
    let mut i: usize = 0;
    while i < bytes.len()
        invariant
            0 <= i <= bytes@.len(),
            out@ == old(out)@ + bytes@.subrange(0, i as int),
        decreases bytes@.len() - i,
    {
        out.push(bytes[i]);
        i += 1;
        assert(out@ =~= old(out)@ + bytes@.subrange(0, i as int));
    }
    assert(bytes@.subrange(0, i as int) =~= bytes@);
}

/// The first `k` of `parts`, one after the other.
pub open spec fn concat_before(parts: Seq<Seq<u8>>, k: int) -> Seq<u8>
    decreases k,
{
    if k <= 0 {
        Seq::empty()
    } else {
        concat_before(parts, k - 1) + parts[k - 1]
    }
}

/// Within the concatenation of the first `n` parts, part `k` lies right
/// behind the parts before it, unchanged.
pub proof fn lemma_part_at(parts: Seq<Seq<u8>>, k: int, n: int)
    requires
        0 <= k < n <= parts.len(),
    ensures
        concat_before(parts, k).len() + parts[k].len() <= concat_before(parts, n).len(),
        concat_before(parts, n).subrange(
            concat_before(parts, k).len() as int,
            (concat_before(parts, k).len() + parts[k].len()) as int,
        ) == parts[k],
    decreases n,
{
    let start = concat_before(parts, k).len() as int;
    let end = start + parts[k].len();
    if n == k + 1 {
        assert(concat_before(parts, n).subrange(start, end) =~= parts[k]);
    } else {
        lemma_part_at(parts, k, n - 1);
        assert(concat_before(parts, n).subrange(start, end) =~= concat_before(
            parts,
            n - 1,
        ).subrange(start, end));
    }
}

} // verus!
