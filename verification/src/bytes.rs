//! Little-endian encoding of fixed-width integers.

use vstd::prelude::*;

verus! {

/// The two little-endian bytes of `x`.
pub open spec fn le16(x: u16) -> Seq<u8> {
    seq![(x % 256) as u8, (x / 256) as u8]
}

/// The four little-endian bytes of `x`.
pub open spec fn le32(x: u32) -> Seq<u8> {
    seq![
        (x % 256) as u8,
        ((x / 256) % 256) as u8,
        ((x / 65536) % 256) as u8,
        (x / 16777216) as u8,
    ]
}

/// The eight little-endian bytes of `x`.
pub open spec fn le64(x: u64) -> Seq<u8> {
    le32((x % 0x1_0000_0000) as u32) + le32((x / 0x1_0000_0000) as u32)
}

/// Two's complement bits of an `i32`.
pub open spec fn i32_bits(x: i32) -> u32 {
    if x >= 0 {
        x as u32
    } else {
        (x + 0x1_0000_0000) as u32
    }
}

/// Two's complement bits of an `i64`.
pub open spec fn i64_bits(x: i64) -> u64 {
    if x >= 0 {
        x as u64
    } else {
        (x + 0x1_0000_0000_0000_0000) as u64
    }
}

/// The `i32` whose two's complement bits are `x`.
pub open spec fn i32_of_bits(x: u32) -> i32 {
    if x < 0x8000_0000 {
        x as i32
    } else {
        (x - 0x1_0000_0000) as i32
    }
}

/// The `i64` whose two's complement bits are `x`.
pub open spec fn i64_of_bits(x: u64) -> i64 {
    if x < 0x8000_0000_0000_0000 {
        x as i64
    } else {
        (x - 0x1_0000_0000_0000_0000) as i64
    }
}

/// The `u16` stored little-endian at `b[i..i + 2]`.
pub open spec fn u16_at(b: Seq<u8>, i: int) -> u16 {
    (b[i] + 256 * b[i + 1]) as u16
}

/// The `u32` stored little-endian at `b[i..i + 4]`.
pub open spec fn u32_at(b: Seq<u8>, i: int) -> u32 {
    (b[i] + 256 * b[i + 1] + 65536 * b[i + 2] + 16777216 * b[i + 3]) as u32
}

/// The `u64` stored little-endian at `b[i..i + 8]`.
pub open spec fn u64_at(b: Seq<u8>, i: int) -> u64 {
    (u32_at(b, i) + 0x1_0000_0000 * u32_at(b, i + 4)) as u64
}

/// The `i32` stored little-endian at `b[i..i + 4]`.
pub open spec fn i32_at(b: Seq<u8>, i: int) -> i32 {
    i32_of_bits(u32_at(b, i))
}

/// The `i64` stored little-endian at `b[i..i + 8]`.
pub open spec fn i64_at(b: Seq<u8>, i: int) -> i64 {
    i64_of_bits(u64_at(b, i))
}

pub proof fn lemma_u16_at(b: Seq<u8>, i: int, x: u16)
    requires
        0 <= i,
        i + 2 <= b.len(),
        b.subrange(i, i + 2) == le16(x),
    ensures
        u16_at(b, i) == x,
{
    assert(b[i] == b.subrange(i, i + 2)[0]);
    assert(b[i + 1] == b.subrange(i, i + 2)[1]);
}

pub proof fn lemma_u32_at(b: Seq<u8>, i: int, x: u32)
    requires
        0 <= i,
        i + 4 <= b.len(),
        b.subrange(i, i + 4) == le32(x),
    ensures
        u32_at(b, i) == x,
{
    assert(b[i] == b.subrange(i, i + 4)[0]);
    assert(b[i + 1] == b.subrange(i, i + 4)[1]);
    assert(b[i + 2] == b.subrange(i, i + 4)[2]);
    assert(b[i + 3] == b.subrange(i, i + 4)[3]);
}

pub proof fn lemma_u64_at(b: Seq<u8>, i: int, x: u64)
    requires
        0 <= i,
        i + 8 <= b.len(),
        b.subrange(i, i + 8) == le64(x),
    ensures
        u64_at(b, i) == x,
{
    let lo = (x % 0x1_0000_0000) as u32;
    let hi = (x / 0x1_0000_0000) as u32;
    assert(b.subrange(i, i + 4) =~= b.subrange(i, i + 8).subrange(0, 4));
    assert(b.subrange(i + 4, i + 8) =~= b.subrange(i, i + 8).subrange(4, 8));
    assert(le64(x).subrange(0, 4) =~= le32(lo));
    assert(le64(x).subrange(4, 8) =~= le32(hi));
    lemma_u32_at(b, i, lo);
    lemma_u32_at(b, i + 4, hi);
}

pub proof fn lemma_i32_bits(x: i32)
    ensures
        i32_of_bits(i32_bits(x)) == x,
{
}

pub proof fn lemma_i64_bits(x: i64)
    ensures
        i64_of_bits(i64_bits(x)) == x,
{
}

/// Appends the little-endian bytes of `x`.
pub fn push_u16(out: &mut Vec<u8>, x: u16)
    ensures
        final(out)@ == old(out)@ + le16(x),
{
    out.push((x % 256) as u8);
    out.push((x / 256) as u8);
    assert(final(out)@ =~= old(out)@ + le16(x));
}

/// Appends the little-endian bytes of `x`.
pub fn push_u32(out: &mut Vec<u8>, x: u32)
    ensures
        final(out)@ == old(out)@ + le32(x),
{
    out.push((x % 256) as u8);
    out.push(((x / 256) % 256) as u8);
    out.push(((x / 65536) % 256) as u8);
    out.push((x / 16777216) as u8);
    assert(final(out)@ =~= old(out)@ + le32(x));
}

/// Appends the little-endian bytes of `x`.
pub fn push_u64(out: &mut Vec<u8>, x: u64)
    ensures
        final(out)@ == old(out)@ + le64(x),
{
    push_u32(out, (x % 0x1_0000_0000) as u32);
    push_u32(out, (x / 0x1_0000_0000) as u32);
    assert(final(out)@ =~= old(out)@ + le64(x));
}

/// Appends the little-endian two's complement bytes of `x`.
pub fn push_i32(out: &mut Vec<u8>, x: i32)
    ensures
        final(out)@ == old(out)@ + le32(i32_bits(x)),
{
    let bits: u32 = if x >= 0 {
        x as u32
    } else {
        ((x as i64) + 0x1_0000_0000i64) as u32
    };
    push_u32(out, bits);
}

/// Appends the little-endian two's complement bytes of `x`.
pub fn push_i64(out: &mut Vec<u8>, x: i64)
    ensures
        final(out)@ == old(out)@ + le64(i64_bits(x)),
{
    let bits: u64 = if x >= 0 {
        x as u64
    } else {
        ((x + 0x4000_0000_0000_0000i64 + 0x4000_0000_0000_0000i64) as u64) + 0x8000_0000_0000_0000u64
    };
    push_u64(out, bits);
}

/// Reads the little-endian `u16` at `b[i..i + 2]`.
pub fn read_u16(b: &[u8], i: usize) -> (r: u16)
    requires
        i + 2 <= b.len(),
    ensures
        r == u16_at(b@, i as int),
{
    (b[i] as u16) + 256 * (b[i + 1] as u16)
}

/// Reads the little-endian `u32` at `b[i..i + 4]`.
pub fn read_u32(b: &[u8], i: usize) -> (r: u32)
    requires
        i + 4 <= b.len(),
    ensures
        r == u32_at(b@, i as int),
{
    (b[i] as u32) + 256 * (b[i + 1] as u32) + 65536 * (b[i + 2] as u32) + 16777216 * (b[i
        + 3] as u32)
}

/// Reads the little-endian `u64` at `b[i..i + 8]`.
pub fn read_u64(b: &[u8], i: usize) -> (r: u64)
    requires
        i + 8 <= b.len(),
    ensures
        r == u64_at(b@, i as int),
{
    let lo = read_u32(b, i);
    let hi = read_u32(b, i + 4);
    (lo as u64) + 0x1_0000_0000u64 * (hi as u64)
}

/// Reads the little-endian two's complement `i32` at `b[i..i + 4]`.
pub fn read_i32(b: &[u8], i: usize) -> (r: i32)
    requires
        i + 4 <= b.len(),
    ensures
        r == i32_at(b@, i as int),
{
    let u = read_u32(b, i);
    if u < 0x8000_0000 {
        u as i32
    } else {
        ((u as i64) - 0x1_0000_0000i64) as i32
    }
}

/// Reads the little-endian two's complement `i64` at `b[i..i + 8]`.
pub fn read_i64(b: &[u8], i: usize) -> (r: i64)
    requires
        i + 8 <= b.len(),
    ensures
        r == i64_at(b@, i as int),
{
    let u = read_u64(b, i);
    if u < 0x8000_0000_0000_0000 {
        u as i64
    } else {
        let below = (u - 0x8000_0000_0000_0000u64) as i64;
        below - 0x4000_0000_0000_0000i64 - 0x4000_0000_0000_0000i64
    }
}

} // verus!
