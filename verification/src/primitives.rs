//! The two outside primitives the codec consumes, behind trusted wrappers:
//! the CRC32 (IEEE) checksum and the 64-bit little-endian length header.
use vstd::prelude::*;

use crate::definitions::le_bytes;
use crate::definitions::le_value;

verus! {

/// The CRC32 checksum (IEEE polynomial) of a byte string, as computed by
/// `crc::crc32::checksum_ieee`: a pure function of the bytes alone.
pub uninterp spec fn crc32_ieee(data: Seq<u8>) -> u32;

/// Relies on `crc::crc32::checksum_ieee`: the CRC32 (IEEE) of the given
/// bytes, here of `v[from..to]`. The crate computes it by a table walk over
/// exactly those bytes, so the result is a function of them alone.
#[verifier::external_body]
pub(crate) fn checksum_ieee(v: &Vec<u8>, from: usize, to: usize) -> (r: u32)
    requires
        from <= to <= v.len(),
    ensures
        r == crc32_ieee(v@.subrange(from as int, to as int)),
{
    crc::crc32::checksum_ieee(&v[from..to])
}

/// Relies on `byteorder::LittleEndian::read_u64`: reads `v[s..s + 8]` as a
/// little-endian unsigned 64-bit integer. (Panics only when fewer than 8
/// bytes are given, which the precondition rules out.)
#[verifier::external_body]
pub(crate) fn read_u64_le(v: &Vec<u8>, s: usize) -> (r: u64)
    requires
        s + 8 <= v.len(),
    ensures
        r as nat == le_value(v@.subrange(s as int, s as int + 8)),
{
    <byteorder::LittleEndian as byteorder::ByteOrder>::read_u64(&v[s..s + 8])
}

/// Relies on `byteorder::LittleEndian::write_u64`: overwrites `v[d..d + 8]`
/// with the little-endian bytes of `n` and leaves the rest of `v` unchanged.
/// (Panics only when fewer than 8 bytes are given, which the precondition
/// rules out.)
#[verifier::external_body]
pub(crate) fn write_u64_le(v: &mut Vec<u8>, d: usize, n: u64)
    requires
        d + 8 <= old(v).len(),
    ensures
        final(v).len() == old(v).len(),
        final(v)@.subrange(d as int, d as int + 8) == le_bytes(n as nat, 8),
        final(v)@.subrange(0, d as int) == old(v)@.subrange(0, d as int),
        final(v)@.subrange(d as int + 8, old(v).len() as int) == old(v)@.subrange(
            d as int + 8,
            old(v).len() as int,
        ),
{
    <byteorder::LittleEndian as byteorder::ByteOrder>::write_u64(&mut v[d..d + 8], n);
}

} // verus!
