//! Fixed-width integers in byte buffers, through the `byteorder` crate.
use byteorder::{BigEndian, ByteOrder, LittleEndian};
use vstd::prelude::*;

use crate::varint::{be_bytes, be_num};

verus! {

/// The value of a little-endian two's complement 16-bit integer whose
/// bytes are `lo` and then `hi`.
pub open spec fn le_i16_value(lo: u8, hi: u8) -> int {
    if hi < 0x80 {
        hi * 256 + lo
    } else {
        hi * 256 + lo - 0x1_0000
    }
}

/// The two bytes of `n` in little-endian two's complement.
pub open spec fn le_i16_bytes(n: i16) -> Seq<u8> {
    let u: int = if n >= 0 {
        n as int
    } else {
        n + 0x1_0000
    };
    seq![(u % 256) as u8, (u / 256) as u8]
}

/// `BigEndian::read_u16`: the big-endian number in the first two bytes.
#[verifier::external_body]
pub(crate) fn be_read_u16(buf: &[u8]) -> (r: u16)
    requires
        buf@.len() >= 2,
    ensures
        r == be_num(buf@.take(2)),
{
    BigEndian::read_u16(buf)
}

/// `BigEndian::read_u32`: the big-endian number in the first four bytes.
#[verifier::external_body]
pub(crate) fn be_read_u32(buf: &[u8]) -> (r: u32)
    requires
        buf@.len() >= 4,
    ensures
        r == be_num(buf@.take(4)),
{
    BigEndian::read_u32(buf)
}

/// `BigEndian::write_u16`: stores `n` big-endian in `buf[at..at + 2]` and
/// leaves every other byte as it was.
#[verifier::external_body]
pub(crate) fn be_write_u16(buf: &mut Vec<u8>, at: usize, n: u16)
    requires
        at + 2 <= old(buf)@.len(),
    ensures
        final(buf)@ == old(buf)@.take(at as int) + be_bytes(n as nat, 2) + old(buf)@.skip(
            at + 2,
        ),
{
    BigEndian::write_u16(&mut buf[at..], n)
}

/// `BigEndian::write_u32`: stores `n` big-endian in `buf[at..at + 4]` and
/// leaves every other byte as it was.
#[verifier::external_body]
pub(crate) fn be_write_u32(buf: &mut Vec<u8>, at: usize, n: u32)
    requires
        at + 4 <= old(buf)@.len(),
    ensures
        final(buf)@ == old(buf)@.take(at as int) + be_bytes(n as nat, 4) + old(buf)@.skip(
            at + 4,
        ),
{
    BigEndian::write_u32(&mut buf[at..], n)
}

/// `LittleEndian::read_i16`: the little-endian two's complement number in
/// the first two bytes.
#[verifier::external_body]
pub(crate) fn le_read_i16(buf: &[u8]) -> (r: i16)
    requires
        buf@.len() >= 2,
    ensures
        r == le_i16_value(buf@[0], buf@[1]),
{
    LittleEndian::read_i16(buf)
}

/// `LittleEndian::write_i16`: stores `n` little-endian in two's complement
/// in `buf[at..at + 2]` and leaves every other byte as it was.
#[verifier::external_body]
pub(crate) fn le_write_i16(buf: &mut Vec<u8>, at: usize, n: i16)
    requires
        at + 2 <= old(buf)@.len(),
    ensures
        final(buf)@ == old(buf)@.take(at as int) + le_i16_bytes(n) + old(buf)@.skip(at + 2),
{
    LittleEndian::write_i16(&mut buf[at..], n)
}

} // verus!
