//! Little-endian integers in byte buffers, read and written with `byteorder`.

use vstd::prelude::*;
use vstd::bytes::{
    spec_u16_from_le_bytes, spec_u16_to_le_bytes, spec_u32_from_le_bytes, spec_u32_to_le_bytes,
};
use byteorder::ByteOrder;
use byteorder::LittleEndian;

verus! {

/// The little-endian `u16` at `at`.
pub open spec fn u16_at(b: Seq<u8>, at: int) -> u16 {
    spec_u16_from_le_bytes(b.subrange(at, at + 2))
}

/// The little-endian `u32` at `at`.
pub open spec fn u32_at(b: Seq<u8>, at: int) -> u32 {
    spec_u32_from_le_bytes(b.subrange(at, at + 4))
}

/// `LittleEndian::read_u16` on the two bytes at `at`: their little-endian value.
#[verifier::external_body]
pub(crate) fn read_le_u16(bytes: &[u8], at: usize) -> (r: u16)
    requires
        at + 2 <= bytes@.len(),
    ensures
        r == u16_at(bytes@, at as int),
{
    LittleEndian::read_u16(&bytes[at..at + 2])
}

/// `LittleEndian::read_u32` on the four bytes at `at`: their little-endian value.
#[verifier::external_body]
pub(crate) fn read_le_u32(bytes: &[u8], at: usize) -> (r: u32)
    requires
        at + 4 <= bytes@.len(),
    ensures
        r == u32_at(bytes@, at as int),
{
    LittleEndian::read_u32(&bytes[at..at + 4])
}

/// `LittleEndian::write_u16` into the two bytes at `at`; the others are kept.
#[verifier::external_body]
pub(crate) fn write_le_u16(buf: &mut [u8; 256], at: usize, n: u16)
    requires
        at + 2 <= 256,
    ensures
        final(buf)@ == old(buf)@.subrange(0, at as int) + spec_u16_to_le_bytes(n) + old(
            buf,
        )@.subrange(at + 2, 256),
{
    LittleEndian::write_u16(&mut buf[at..at + 2], n)
}

/// `LittleEndian::write_u32` into the four bytes at `at`; the others are kept.
#[verifier::external_body]
pub(crate) fn write_le_u32(buf: &mut [u8; 256], at: usize, n: u32)
    requires
        at + 4 <= 256,
    ensures
        final(buf)@ == old(buf)@.subrange(0, at as int) + spec_u32_to_le_bytes(n) + old(
            buf,
        )@.subrange(at + 4, 256),
{
    LittleEndian::write_u32(&mut buf[at..at + 4], n)
}

} // verus!
