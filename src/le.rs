//! Little-endian integers of the byte stream, through the byteorder crate.

use crate::bitseq::le16;
use byteorder::ByteOrder;
use byteorder::LittleEndian;
use vstd::prelude::*;

verus! {

/// The value of four bytes read as a little-endian 32-bit number.
pub open spec fn le32(b: Seq<u8>) -> nat {
    b[0] as nat + 256 * (b[1] as nat) + 65536 * (b[2] as nat) + 16777216 * (b[3] as nat)
}

/// The four bytes of `n`, least significant first.
pub open spec fn le32_bytes(n: u32) -> Seq<u8> {
    seq![
        (n % 256) as u8,
        ((n / 256) % 256) as u8,
        ((n / 65536) % 256) as u8,
        (n / 16777216) as u8,
    ]
}

/// Relies on byteorder's `LittleEndian::read_u16`: the two bytes as a
/// little-endian word.
#[verifier::external_body]
pub(crate) fn u16_from_le(lo: u8, hi: u8) -> (r: u16)
    ensures
        r as nat == le16(lo, hi),
{
    LittleEndian::read_u16(&[lo, hi])
}

/// Relies on byteorder's `LittleEndian::write_u16`: the low byte of the word,
/// then its high byte.
#[verifier::external_body]
pub(crate) fn u16_to_le(n: u16) -> (r: [u8; 2])
    ensures
        r@ == seq![(n % 256) as u8, (n / 256) as u8],
{
    let mut b = [0u8; 2];
    LittleEndian::write_u16(&mut b, n);
    b
}

/// Relies on byteorder's `LittleEndian::read_u32`: the first four bytes of
/// `b` as a little-endian number.
#[verifier::external_body]
pub(crate) fn u32_from_le(b: &[u8]) -> (r: u32)
    requires
        b@.len() >= 4,
    ensures
        r as nat == le32(b@),
{
    LittleEndian::read_u32(b)
}

/// Relies on byteorder's `LittleEndian::write_u32`: the four bytes of `n`,
/// least significant first.
#[verifier::external_body]
pub(crate) fn u32_to_le(n: u32) -> (r: [u8; 4])
    ensures
        r@ == le32_bytes(n),
{
    let mut b = [0u8; 4];
    LittleEndian::write_u32(&mut b, n);
    b
}

} // verus!
