//! Unsigned integers as big-endian bytes.

use vstd::prelude::*;

verus! {

/// Byte `k` of `x`, counted from the least significant one.
pub open spec fn byte(x: u64, k: u64) -> u8 {
    ((x >> (8 * k)) & 0xff) as u8
}

/// The eight bytes of `x`, most significant first.
#[verifier::opaque]
pub open spec fn be64(x: u64) -> Seq<u8> {
    seq![
        byte(x, 7),
        byte(x, 6),
        byte(x, 5),
        byte(x, 4),
        byte(x, 3),
        byte(x, 2),
        byte(x, 1),
        byte(x, 0),
    ]
}

/// The four least significant bytes of `x`, most significant first.
#[verifier::opaque]
pub open spec fn be32_low(x: u64) -> Seq<u8> {
    seq![byte(x, 3), byte(x, 2), byte(x, 1), byte(x, 0)]
}

/// The number whose big-endian bytes are the eight bytes `b`.
pub open spec fn u64_of(b: Seq<u8>) -> u64 {
    (b[0] as u64) << 56 | (b[1] as u64) << 48 | (b[2] as u64) << 40 | (b[3] as u64) << 32 | (
    b[4] as u64) << 24 | (b[5] as u64) << 16 | (b[6] as u64) << 8 | (b[7] as u64)
}

/// The number whose big-endian bytes are the four bytes `b`.
pub open spec fn u32_of(b: Seq<u8>) -> u32 {
    (b[0] as u32) << 24 | (b[1] as u32) << 16 | (b[2] as u32) << 8 | (b[3] as u32)
}

/// The number stored in the eight bytes of `s` from position `at`.
pub open spec fn u64_at(s: Seq<u8>, at: int) -> u64 {
    u64_of(s.subrange(at, at + 8))
}

/// The number stored in the four bytes of `s` from position `at`.
pub open spec fn u32_at(s: Seq<u8>, at: int) -> u32 {
    u32_of(s.subrange(at, at + 4))
}

/// Reading the bytes of a number gives the number back.
pub proof fn lemma_u64_of_be64(x: u64)
    ensures
        be64(x).len() == 8,
        u64_of(be64(x)) == x,
{
    reveal(be64);
    assert((((x >> 56) & 0xff) as u8 as u64) << 56 | (((x >> 48) & 0xff) as u8 as u64) << 48 | (((x
        >> 40) & 0xff) as u8 as u64) << 40 | (((x >> 32) & 0xff) as u8 as u64) << 32 | (((x >> 24)
        & 0xff) as u8 as u64) << 24 | (((x >> 16) & 0xff) as u8 as u64) << 16 | (((x >> 8)
        & 0xff) as u8 as u64) << 8 | (((x >> 0) & 0xff) as u8 as u64) == x) by (bit_vector);
}

/// Reading the four low bytes of a number below 2^32 gives the number back.
pub proof fn lemma_u32_of_be32(x: u64)
    requires
        x <= u32::MAX,
    ensures
        be32_low(x).len() == 4,
        u32_of(be32_low(x)) == x,
{
    reveal(be32_low);
    assert(x <= 0xffff_ffff ==> ((((x >> 24) & 0xff) as u8 as u32) << 24 | (((x >> 16)
        & 0xff) as u8 as u32) << 16 | (((x >> 8) & 0xff) as u8 as u32) << 8 | (((x >> 0)
        & 0xff) as u8 as u32)) as u64 == x) by (bit_vector);
}

/// A number has eight bytes, and its low half four.
pub proof fn lemma_be_len(x: u64)
    ensures
        be64(x).len() == 8,
        be32_low(x).len() == 4,
{
    reveal(be64);
    reveal(be32_low);
}

/// Appends the eight big-endian bytes of `x` to `out`.
pub fn put_u64(out: &mut Vec<u8>, x: u64)
    ensures
        final(out)@ == old(out)@ + be64(x),
{
    assert(((x >> 56) & 0xff) <= 0xff && ((x >> 48) & 0xff) <= 0xff && ((x >> 40) & 0xff) <= 0xff
        && ((x >> 32) & 0xff) <= 0xff && ((x >> 24) & 0xff) <= 0xff && ((x >> 16) & 0xff) <= 0xff
        && ((x >> 8) & 0xff) <= 0xff && ((x >> 0) & 0xff) <= 0xff) by (bit_vector);
    out.push(((x >> 56) & 0xff) as u8);
    out.push(((x >> 48) & 0xff) as u8);
    out.push(((x >> 40) & 0xff) as u8);
    out.push(((x >> 32) & 0xff) as u8);
    out.push(((x >> 24) & 0xff) as u8);
    out.push(((x >> 16) & 0xff) as u8);
    out.push(((x >> 8) & 0xff) as u8);
    out.push(((x >> 0) & 0xff) as u8);
    assert(out@ =~= old(out)@ + be64(x)) by {
        reveal(be64);
    }
}

/// Reads the number stored big-endian in the eight bytes of `bytes` from
/// position `at`.
pub fn get_u64(bytes: &[u8], at: usize) -> (x: u64)
    requires
        at + 8 <= bytes@.len(),
    ensures
        x == u64_at(bytes@, at as int),
{
    let ghost b = bytes@.subrange(at as int, at + 8);
    assert(b[0] == bytes@[at + 0] && b[1] == bytes@[at + 1] && b[2] == bytes@[at + 2] && b[3]
        == bytes@[at + 3] && b[4] == bytes@[at + 4] && b[5] == bytes@[at + 5] && b[6] == bytes@[at
        + 6] && b[7] == bytes@[at + 7]);
    (bytes[at] as u64) << 56 | (bytes[at + 1] as u64) << 48 | (bytes[at + 2] as u64) << 40 | (
    bytes[at + 3] as u64) << 32 | (bytes[at + 4] as u64) << 24 | (bytes[at + 5] as u64) << 16 | (
    bytes[at + 6] as u64) << 8 | (bytes[at + 7] as u64)
}

/// Reads the number stored big-endian in the four bytes of `bytes` from
/// position `at`.
pub fn get_u32(bytes: &[u8], at: usize) -> (x: u32)
    requires
        at + 4 <= bytes@.len(),
    ensures
        x == u32_at(bytes@, at as int),
{
    let ghost b = bytes@.subrange(at as int, at + 4);
    assert(b[0] == bytes@[at + 0] && b[1] == bytes@[at + 1] && b[2] == bytes@[at + 2] && b[3]
        == bytes@[at + 3]);
    (bytes[at] as u32) << 24 | (bytes[at + 1] as u32) << 16 | (bytes[at + 2] as u32) << 8 | (
    bytes[at + 3] as u32)
}

} // verus!
