//! Little-endian integers at the head of a byte slice, and CRC-32 checksums.

use vstd::prelude::*;
use vstd::bytes::*;
use vstd::slice::*;

verus! {

/// The CRC-32 checksum of `data`, as `crc32fast` computes it.
pub uninterp spec fn crc32(data: Seq<u8>) -> u32;

/// `crc32fast::hash` is a function of the bytes alone; [`crc32`] names its value.
#[verifier::external_body]
pub(crate) fn checksum(data: &[u8]) -> (c: u32)
    ensures
        c == crc32(data@),
{
    crc32fast::hash(data)
}

/// The first two bytes of `b` as a little-endian integer.
pub fn le_u16(b: &[u8]) -> (x: u16)
    requires
        b@.len() >= 2,
    ensures
        x == spec_u16_from_le_bytes(b@.take(2)),
{
    u16_from_le_bytes(slice_subrange(b, 0, 2))
}

/// The first four bytes of `b` as a little-endian integer.
pub fn le_u32(b: &[u8]) -> (x: u32)
    requires
        b@.len() >= 4,
    ensures
        x == spec_u32_from_le_bytes(b@.take(4)),
{
    u32_from_le_bytes(slice_subrange(b, 0, 4))
}

/// The first eight bytes of `b` as a little-endian integer.
pub fn le_u64(b: &[u8]) -> (x: u64)
    requires
        b@.len() >= 8,
    ensures
        x == spec_u64_from_le_bytes(b@.take(8)),
{
    u64_from_le_bytes(slice_subrange(b, 0, 8))
}

/// The little-endian integer in the four bytes of `b` from `at`.
pub open spec fn u32_at(b: Seq<u8>, at: int) -> u32 {
    spec_u32_from_le_bytes(b.subrange(at, at + 4))
}

/// The little-endian integer in the eight bytes of `b` from `at`.
pub open spec fn u64_at(b: Seq<u8>, at: int) -> u64 {
    spec_u64_from_le_bytes(b.subrange(at, at + 8))
}

/// Reads four bytes from `at`.
pub fn read_u32(b: &[u8], at: usize) -> (x: u32)
    requires
        at + 4 <= b.len(),
    ensures
        x == u32_at(b@, at as int),
{
    let four: &[u8] = slice_subrange(b, at, at + 4);
    assert(four@.take(4) =~= b@.subrange(at as int, at + 4));
    le_u32(four)
}

/// Reads eight bytes from `at`.
pub fn read_u64(b: &[u8], at: usize) -> (x: u64)
    requires
        at + 8 <= b.len(),
    ensures
        x == u64_at(b@, at as int),
{
    let eight: &[u8] = slice_subrange(b, at, at + 8);
    assert(eight@.take(8) =~= b@.subrange(at as int, at + 8));
    le_u64(eight)
}

/// Appends `tail` to `out`.
pub fn append_bytes(out: &mut Vec<u8>, tail: &[u8])
    ensures
        final(out)@ == old(out)@ + tail@,
{
    let ghost start = out@;
    let mut i: usize = 0;
    while i < tail.len()
        invariant
            i <= tail.len(),
            out@ == start + tail@.take(i as int),
        decreases tail.len() - i,
    {
        out.push(tail[i]);
        i += 1;
        assert(tail@.take(i as int) =~= tail@.take(i - 1).push(tail@[i - 1]));
    }
    assert(tail@.take(tail@.len() as int) =~= tail@);
}

/// A copy of the bytes `from..to` of `b`.
pub fn copy_range(b: &[u8], from: usize, to: usize) -> (r: Vec<u8>)
    requires
        from <= to <= b@.len(),
    ensures
        r@ == b@.subrange(from as int, to as int),
{
    let mut out: Vec<u8> = Vec::new();
    append_bytes(&mut out, slice_subrange(b, from, to));
    assert(out@ =~= b@.subrange(from as int, to as int));
    out
}

} // verus!
