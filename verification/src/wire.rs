//! Little-endian integers on the wire.

use vstd::prelude::*;

verus! {

/// The two bytes of `x`, least significant first.
pub open spec fn u16_le(x: u16) -> Seq<u8> {
    seq![(x % 256) as u8, (x / 256) as u8]
}

/// The four bytes of `x`, least significant first.
pub open spec fn u32_le(x: u32) -> Seq<u8> {
    seq![
        (x % 256) as u8,
        (x / 256 % 256) as u8,
        (x / 65536 % 256) as u8,
        (x / 16777216) as u8,
    ]
}

/// The number that the two bytes at `at` spell, least significant first.
pub open spec fn u16_at(s: Seq<u8>, at: int) -> u16 {
    (s[at] + 256 * s[at + 1]) as u16
}

/// The number that the four bytes at `at` spell, least significant first.
pub open spec fn u32_at(s: Seq<u8>, at: int) -> u32 {
    (s[at] + 256 * s[at + 1] + 65536 * s[at + 2] + 16777216 * s[at + 3]) as u32
}

/// Appends the two bytes of `x` to `out`.
pub fn put_u16(out: &mut Vec<u8>, x: u16)
    ensures
        final(out)@ == old(out)@ + u16_le(x),
{
    out.push((x % 256) as u8);
    out.push((x / 256) as u8);
    assert(out@ =~= old(out)@ + u16_le(x));
}

/// Appends the four bytes of `x` to `out`.
pub fn put_u32(out: &mut Vec<u8>, x: u32)
    ensures
        final(out)@ == old(out)@ + u32_le(x),
{
    out.push((x % 256) as u8);
    out.push((x / 256 % 256) as u8);
    out.push((x / 65536 % 256) as u8);
    out.push((x / 16777216) as u8);
    assert(out@ =~= old(out)@ + u32_le(x));
}

/// Reads the two bytes at `at` as a number.
pub fn get_u16(data: &[u8], at: usize) -> (x: u16)
    requires
        at + 2 <= data@.len(),
    ensures
        x == u16_at(data@, at as int),
{
    let lo: u16 = data[at] as u16;
    let hi: u16 = data[at + 1] as u16;
    lo + 256 * hi
}

/// Reads the four bytes at `at` as a number.
pub fn get_u32(data: &[u8], at: usize) -> (x: u32)
    requires
        at + 4 <= data@.len(),
    ensures
        x == u32_at(data@, at as int),
{
    let b0: u32 = data[at] as u32;
    let b1: u32 = data[at + 1] as u32;
    let b2: u32 = data[at + 2] as u32;
    let b3: u32 = data[at + 3] as u32;
    b0 + 256 * b1 + 65536 * b2 + 16777216 * b3
}

/// Appends the bytes of `src` to `out`.
pub fn put_bytes(out: &mut Vec<u8>, src: &[u8])
    ensures
        final(out)@ == old(out)@ + src@,
{
    let mut i: usize = 0;
    while i < src.len()
        invariant
            i <= src@.len(),
            out@ == old(out)@ + src@.take(i as int),
        decreases src@.len() - i,
    {
        out.push(src[i]);
        i = i + 1;
        assert(out@ =~= old(out)@ + src@.take(i as int));
    }
    assert(src@.take(i as int) =~= src@);
}

/// Whether two byte strings are the same.
pub fn same_bytes(a: &[u8], b: &[u8]) -> (same: bool)
    ensures
        same == (a@ == b@),
{
    if a.len() != b.len() {
        return false;
    }
    let mut i: usize = 0;
    while i < a.len()
        invariant
            a@.len() == b@.len(),
            i <= a@.len(),
            a@.take(i as int) == b@.take(i as int),
        decreases a@.len() - i,
    {
        if a[i] != b[i] {
            return false;
        }
        i = i + 1;
        assert(a@.take(i as int) =~= a@.take(i - 1).push(a@[i - 1]));
        assert(b@.take(i as int) =~= b@.take(i - 1).push(b@[i - 1]));
    }
    assert(a@.take(i as int) =~= a@);
    assert(b@.take(i as int) =~= b@);
    true
}

/// A copy of the bytes of `data` from `from` up to `to`.
pub fn copy_range(data: &[u8], from: usize, to: usize) -> (out: Vec<u8>)
    requires
        from <= to <= data@.len(),
    ensures
        out@ == data@.subrange(from as int, to as int),
{
    let mut out: Vec<u8> = Vec::new();
    let mut i: usize = from;
    while i < to
        invariant
            from <= i <= to <= data@.len(),
            out@ == data@.subrange(from as int, i as int),
        decreases to - i,
    {
        out.push(data[i]);
        i = i + 1;
        assert(out@ =~= data@.subrange(from as int, i as int));
    }
    out
}

/// A copy of the bytes of `data`.
pub fn copy_bytes(data: &[u8]) -> (out: Vec<u8>)
    ensures
        out@ == data@,
{
    let out = copy_range(data, 0, data.len());
    assert(data@.subrange(0, data@.len() as int) =~= data@);
    out
}

/// A number is read from the four bytes that spell it, wherever they lie.
pub proof fn lemma_u32_found(s: Seq<u8>, at: int, x: u32)
    requires
        0 <= at,
        at + 4 <= s.len(),
        s.subrange(at, at + 4) == u32_le(x),
    ensures
        u32_at(s, at) == x,
{
    let w = s.subrange(at, at + 4);
    assert(s[at] == w[0]);
    assert(s[at + 1] == w[1]);
    assert(s[at + 2] == w[2]);
    assert(s[at + 3] == w[3]);
}

/// A number is read from the two bytes that spell it, wherever they lie.
pub proof fn lemma_u16_found(s: Seq<u8>, at: int, x: u16)
    requires
        0 <= at,
        at + 2 <= s.len(),
        s.subrange(at, at + 2) == u16_le(x),
    ensures
        u16_at(s, at) == x,
{
    let w = s.subrange(at, at + 2);
    assert(s[at] == w[0]);
    assert(s[at + 1] == w[1]);
}

/// The pattern of sixty-four bits that stands for a signed number.
pub open spec fn i64_bits(x: i64) -> u64 {
    if x >= 0 {
        x as u64
    } else {
        (x + 0x1_0000_0000_0000_0000) as u64
    }
}

/// The signed number that a pattern of sixty-four bits stands for.
pub open spec fn bits_i64(u: u64) -> i64 {
    if u < 0x8000_0000_0000_0000 {
        u as i64
    } else {
        (u - 0x1_0000_0000_0000_0000) as i64
    }
}

/// The eight bytes of `x`, least significant first.
pub open spec fn i64_le(x: i64) -> Seq<u8> {
    u32_le((i64_bits(x) % 0x1_0000_0000) as u32) + u32_le((i64_bits(x) / 0x1_0000_0000) as u32)
}

/// The signed number that the eight bytes at `at` spell, least significant
/// first.
pub open spec fn i64_at(s: Seq<u8>, at: int) -> i64 {
    bits_i64((u32_at(s, at) + 0x1_0000_0000 * u32_at(s, at + 4)) as u64)
}

/// Appends the eight bytes of `x` to `out`.
pub fn put_i64(out: &mut Vec<u8>, x: i64)
    ensures
        final(out)@ == old(out)@ + i64_le(x),
{
    let bits: u64 = if x >= 0 {
        x as u64
    } else {
        ((x + i64::MAX) + 1) as u64 + 0x8000_0000_0000_0000
    };
    put_u32(out, (bits % 0x1_0000_0000) as u32);
    put_u32(out, (bits / 0x1_0000_0000) as u32);
    assert(out@ =~= old(out)@ + i64_le(x));
}

/// Reads the eight bytes at `at` as a signed number.
pub fn get_i64(data: &[u8], at: usize) -> (x: i64)
    requires
        at + 8 <= data@.len(),
    ensures
        x == i64_at(data@, at as int),
{
    let size = data.len();
    assert(at + 8 <= size);
    let lo: u64 = get_u32(data, at) as u64;
    let hi: u64 = get_u32(data, at + 4) as u64;
    let bits: u64 = lo + 0x1_0000_0000 * hi;
    if bits < 0x8000_0000_0000_0000 {
        bits as i64
    } else {
        (bits - 0x8000_0000_0000_0000) as i64 + i64::MIN
    }
}

/// A signed number is read from the eight bytes that spell it, wherever they
/// lie.
pub proof fn lemma_i64_found(s: Seq<u8>, at: int, x: i64)
    requires
        0 <= at,
        at + 8 <= s.len(),
        s.subrange(at, at + 8) == i64_le(x),
    ensures
        i64_at(s, at) == x,
{
    let w = s.subrange(at, at + 8);
    let lo = (i64_bits(x) % 0x1_0000_0000) as u32;
    let hi = (i64_bits(x) / 0x1_0000_0000) as u32;
    assert(s.subrange(at, at + 4) =~= w.subrange(0, 4));
    assert(w.subrange(0, 4) =~= u32_le(lo));
    assert(s.subrange(at + 4, at + 8) =~= w.subrange(4, 8));
    assert(w.subrange(4, 8) =~= u32_le(hi));
    lemma_u32_found(s, at, lo);
    lemma_u32_found(s, at + 4, hi);
}

} // verus!
