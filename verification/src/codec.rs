//! Big-endian integer encoding for the atlas binary format.
//!
//! The two functions that append to a byte vector call into the
//! `byteorder` crate; their contracts state the exact bytes appended.

use vstd::prelude::*;
use byteorder::{BigEndian, WriteBytesExt};

verus! {

/// The two big-endian bytes of a value in `0 .. 65536`: high byte first.
#[verifier::opaque]
pub open spec fn be_u16_int(v: int) -> Seq<u8> {
    seq![((v / 256) % 256) as u8, (v % 256) as u8]
}

/// The two big-endian bytes of a signed 16-bit value, two's complement.
pub open spec fn be_i16_int(v: int) -> Seq<u8> {
    if v < 0 {
        be_u16_int(v + 0x10000)
    } else {
        be_u16_int(v)
    }
}

/// Relies on byteorder's `WriteBytesExt::write_u16::<BigEndian>`, which
/// writes `v.to_be_bytes()` (high byte, then low byte) through
/// `io::Write`; for `Vec<u8>` that appends the two bytes and never fails.
#[verifier::external_body]
pub fn write_u16_be(out: &mut Vec<u8>, v: u16)
    ensures
        final(out)@ == old(out)@ + be_u16_int(v as int),
{
    WriteBytesExt::write_u16::<BigEndian>(out, v).unwrap();
}

/// Relies on byteorder's `WriteBytesExt::write_i16::<BigEndian>`, which
/// writes `(v as u16).to_be_bytes()` (two's complement, high byte first)
/// through `io::Write`; for `Vec<u8>` that appends the two bytes and
/// never fails.
#[verifier::external_body]
pub fn write_i16_be(out: &mut Vec<u8>, v: i16)
    ensures
        final(out)@ == old(out)@ + be_i16_int(v as int),
{
    WriteBytesExt::write_i16::<BigEndian>(out, v).unwrap();
}

} // verus!
