//! Big-endian integer layout, through the `byteorder` crate.
use byteorder::{BigEndian, ByteOrder};
use vstd::prelude::*;

verus! {

/// The two bytes of `v`, most significant first.
pub open spec fn be16_bytes(v: u16) -> Seq<u8> {
    seq![(v >> 8u16) as u8, (v & 0xffu16) as u8]
}

/// The value of two bytes read most significant first.
pub open spec fn be16_value(b: Seq<u8>) -> u16 {
    (((b[0] as u16) << 8u16) | (b[1] as u16)) as u16
}

/// The four bytes of `v`, most significant first.
pub open spec fn be32_bytes(v: u32) -> Seq<u8> {
    seq![
        (v >> 24u32) as u8,
        ((v >> 16u32) & 0xffu32) as u8,
        ((v >> 8u32) & 0xffu32) as u8,
        (v & 0xffu32) as u8,
    ]
}

/// The value of four bytes read most significant first.
pub open spec fn be32_value(b: Seq<u8>) -> u32 {
    (((b[0] as u32) << 24u32) | ((b[1] as u32) << 16u32) | ((b[2] as u32) << 8u32) | (b[3] as u32)) as u32
}

/// Relies on `byteorder::BigEndian::write_u16`: it stores `n.to_be_bytes()`
/// in the first two bytes of the buffer.
#[verifier::external_body]
pub(crate) fn u16_to_be(v: u16) -> (r: [u8; 2])
    ensures
        r@ == be16_bytes(v),
{
    let mut b = [0u8; 2];
    BigEndian::write_u16(&mut b, v);
    b
}

/// Relies on `byteorder::BigEndian::read_u16`: `u16::from_be_bytes` of the
/// first two bytes, and a panic on a shorter buffer.
#[verifier::external_body]
pub(crate) fn u16_from_be(b: &[u8]) -> (r: u16)
    requires
        b@.len() == 2,
    ensures
        r == be16_value(b@),
{
    BigEndian::read_u16(b)
}

/// Relies on `byteorder::BigEndian::write_u32`: it stores `n.to_be_bytes()`
/// in the first four bytes of the buffer.
#[verifier::external_body]
pub(crate) fn u32_to_be(v: u32) -> (r: [u8; 4])
    ensures
        r@ == be32_bytes(v),
{
    let mut b = [0u8; 4];
    BigEndian::write_u32(&mut b, v);
    b
}

/// Relies on `byteorder::BigEndian::read_u32`: `u32::from_be_bytes` of the
/// first four bytes, and a panic on a shorter buffer.
#[verifier::external_body]
pub(crate) fn u32_from_be(b: &[u8]) -> (r: u32)
    requires
        b@.len() == 4,
    ensures
        r == be32_value(b@),
{
    BigEndian::read_u32(b)
}

/// Reading back the two bytes of a `u16` gives the `u16`.
pub proof fn lemma_be16_value_bytes(v: u16)
    ensures
        be16_value(be16_bytes(v)) == v,
{
    let hi = (v >> 8u16) as u8;
    let lo = (v & 0xffu16) as u8;
    assert((((hi as u16) << 8u16) | (lo as u16)) == v) by (bit_vector)
        requires
            hi == (v >> 8u16) as u8,
            lo == (v & 0xffu16) as u8,
    ;
}

/// Any two bytes are the layout of the value they spell.
pub proof fn lemma_be16_bytes_value(b: Seq<u8>)
    requires
        b.len() == 2,
    ensures
        be16_bytes(be16_value(b)) == b,
{
    let (x, y) = (b[0], b[1]);
    let v = (((x as u16) << 8u16) | (y as u16)) as u16;
    assert((v >> 8u16) as u8 == x && (v & 0xffu16) as u8 == y) by (bit_vector)
        requires
            v == (((x as u16) << 8u16) | (y as u16)) as u16,
    ;
    assert(be16_bytes(be16_value(b)) =~= b);
}

/// Reading back the four bytes of a `u32` gives the `u32`.
pub proof fn lemma_be32_value_bytes(v: u32)
    ensures
        be32_value(be32_bytes(v)) == v,
{
    let b0 = (v >> 24u32) as u8;
    let b1 = ((v >> 16u32) & 0xffu32) as u8;
    let b2 = ((v >> 8u32) & 0xffu32) as u8;
    let b3 = (v & 0xffu32) as u8;
    assert((((b0 as u32) << 24u32) | ((b1 as u32) << 16u32) | ((b2 as u32) << 8u32) | (b3 as u32))
        == v) by (bit_vector)
        requires
            b0 == (v >> 24u32) as u8,
            b1 == ((v >> 16u32) & 0xffu32) as u8,
            b2 == ((v >> 8u32) & 0xffu32) as u8,
            b3 == (v & 0xffu32) as u8,
    ;
}

/// Any four bytes are the layout of the value they spell.
pub proof fn lemma_be32_bytes_value(b: Seq<u8>)
    requires
        b.len() == 4,
    ensures
        be32_bytes(be32_value(b)) == b,
{
    let (b0, b1, b2, b3) = (b[0], b[1], b[2], b[3]);
    let v = (((b0 as u32) << 24u32) | ((b1 as u32) << 16u32) | ((b2 as u32) << 8u32) | (
    b3 as u32)) as u32;
    assert((v >> 24u32) as u8 == b0 && ((v >> 16u32) & 0xffu32) as u8 == b1 && ((v >> 8u32)
        & 0xffu32) as u8 == b2 && (v & 0xffu32) as u8 == b3) by (bit_vector)
        requires
            v == (((b0 as u32) << 24u32) | ((b1 as u32) << 16u32) | ((b2 as u32) << 8u32) | (
            b3 as u32)) as u32,
    ;
    assert(be32_bytes(be32_value(b)) =~= b);
}

} // verus!
