//! Big-endian integers on the wire, read and written through `byteorder`.
use byteorder::{BigEndian, ByteOrder};
use vstd::prelude::*;

verus! {

/// The `u16` whose big-endian bytes are `b[0], b[1]`.
pub open spec fn u16_from_be(b: Seq<u8>) -> u16 {
    ((b[0] as u16) << 8u16) | (b[1] as u16)
}

/// The `u32` whose big-endian bytes are `b[0] .. b[3]`.
pub open spec fn u32_from_be(b: Seq<u8>) -> u32 {
    ((b[0] as u32) << 24u32) | ((b[1] as u32) << 16u32) | ((b[2] as u32) << 8u32) | (b[3] as u32)
}

/// The `u64` whose big-endian bytes are `b[0] .. b[7]`.
pub open spec fn u64_from_be(b: Seq<u8>) -> u64 {
    ((b[0] as u64) << 56u64) | ((b[1] as u64) << 48u64) | ((b[2] as u64) << 40u64) | ((b[3] as u64)
        << 32u64) | ((b[4] as u64) << 24u64) | ((b[5] as u64) << 16u64) | ((b[6] as u64) << 8u64)
        | (b[7] as u64)
}

/// The two big-endian bytes of `v`.
pub open spec fn u16_to_be(v: u16) -> Seq<u8> {
    seq![(v >> 8u16) as u8, v as u8]
}

/// The four big-endian bytes of `v`.
pub open spec fn u32_to_be(v: u32) -> Seq<u8> {
    seq![(v >> 24u32) as u8, (v >> 16u32) as u8, (v >> 8u32) as u8, v as u8]
}

/// The eight big-endian bytes of `v`.
pub open spec fn u64_to_be(v: u64) -> Seq<u8> {
    seq![
        (v >> 56u64) as u8,
        (v >> 48u64) as u8,
        (v >> 40u64) as u8,
        (v >> 32u64) as u8,
        (v >> 24u64) as u8,
        (v >> 16u64) as u8,
        (v >> 8u64) as u8,
        v as u8,
    ]
}

/// `BigEndian::read_u16`: the first two bytes of `buf`, most significant first.
#[verifier::external_body]
pub(crate) fn be_read_u16(buf: &[u8]) -> (r: u16)
    requires
        buf@.len() >= 2,
    ensures
        r == u16_from_be(buf@),
{
    BigEndian::read_u16(buf)
}

/// `BigEndian::read_u32`: the first four bytes of `buf`, most significant first.
#[verifier::external_body]
pub(crate) fn be_read_u32(buf: &[u8]) -> (r: u32)
    requires
        buf@.len() >= 4,
    ensures
        r == u32_from_be(buf@),
{
    BigEndian::read_u32(buf)
}

/// `BigEndian::read_u64`: the first eight bytes of `buf`, most significant first.
#[verifier::external_body]
pub(crate) fn be_read_u64(buf: &[u8]) -> (r: u64)
    requires
        buf@.len() >= 8,
    ensures
        r == u64_from_be(buf@),
{
    BigEndian::read_u64(buf)
}

/// `BigEndian::read_i16`: the `u16` of the first two bytes, reinterpreted as `i16`.
#[verifier::external_body]
pub(crate) fn be_read_i16(buf: &[u8]) -> (r: i16)
    requires
        buf@.len() >= 2,
    ensures
        r == u16_from_be(buf@) as i16,
{
    BigEndian::read_i16(buf)
}

/// `BigEndian::read_i32`: the `u32` of the first four bytes, reinterpreted as `i32`.
#[verifier::external_body]
pub(crate) fn be_read_i32(buf: &[u8]) -> (r: i32)
    requires
        buf@.len() >= 4,
    ensures
        r == u32_from_be(buf@) as i32,
{
    BigEndian::read_i32(buf)
}

/// `BigEndian::read_i64`: the `u64` of the first eight bytes, reinterpreted as `i64`.
#[verifier::external_body]
pub(crate) fn be_read_i64(buf: &[u8]) -> (r: i64)
    requires
        buf@.len() >= 8,
    ensures
        r == u64_from_be(buf@) as i64,
{
    BigEndian::read_i64(buf)
}

/// `BigEndian::write_u16` into a fresh two-byte buffer.
#[verifier::external_body]
pub(crate) fn be_write_u16(v: u16) -> (r: Vec<u8>)
    ensures
        r@ == u16_to_be(v),
{
    let mut buf = vec![0u8; 2];
    BigEndian::write_u16(&mut buf, v);
    buf
}

/// `BigEndian::write_u32` into a fresh four-byte buffer.
#[verifier::external_body]
pub(crate) fn be_write_u32(v: u32) -> (r: Vec<u8>)
    ensures
        r@ == u32_to_be(v),
{
    let mut buf = vec![0u8; 4];
    BigEndian::write_u32(&mut buf, v);
    buf
}

/// `BigEndian::write_u64` into a fresh eight-byte buffer.
#[verifier::external_body]
pub(crate) fn be_write_u64(v: u64) -> (r: Vec<u8>)
    ensures
        r@ == u64_to_be(v),
{
    let mut buf = vec![0u8; 8];
    BigEndian::write_u64(&mut buf, v);
    buf
}

/// `BigEndian::write_i16` into a fresh two-byte buffer: the bytes of `v as u16`.
#[verifier::external_body]
pub(crate) fn be_write_i16(v: i16) -> (r: Vec<u8>)
    ensures
        r@ == u16_to_be(v as u16),
{
    let mut buf = vec![0u8; 2];
    BigEndian::write_i16(&mut buf, v);
    buf
}

/// `BigEndian::write_i32` into a fresh four-byte buffer: the bytes of `v as u32`.
#[verifier::external_body]
pub(crate) fn be_write_i32(v: i32) -> (r: Vec<u8>)
    ensures
        r@ == u32_to_be(v as u32),
{
    let mut buf = vec![0u8; 4];
    BigEndian::write_i32(&mut buf, v);
    buf
}

/// `BigEndian::write_i64` into a fresh eight-byte buffer: the bytes of `v as u64`.
#[verifier::external_body]
pub(crate) fn be_write_i64(v: i64) -> (r: Vec<u8>)
    ensures
        r@ == u64_to_be(v as u64),
{
    let mut buf = vec![0u8; 8];
    BigEndian::write_i64(&mut buf, v);
    buf
}

/// Reading back the two bytes written for `v` gives `v`.
pub proof fn lemma_u16_roundtrip(v: u16)
    ensures
        u16_from_be(u16_to_be(v)) == v,
{
    assert(((((v >> 8u16) as u8) as u16) << 8u16) | ((v as u8) as u16) == v) by (bit_vector);
}

/// Reading back the four bytes written for `v` gives `v`.
pub proof fn lemma_u32_roundtrip(v: u32)
    ensures
        u32_from_be(u32_to_be(v)) == v,
{
    assert(((((v >> 24u32) as u8) as u32) << 24u32) | ((((v >> 16u32) as u8) as u32) << 16u32) | ((((
    v >> 8u32) as u8) as u32) << 8u32) | ((v as u8) as u32) == v) by (bit_vector);
}

/// Reading back the eight bytes written for `v` gives `v`.
pub proof fn lemma_u64_roundtrip(v: u64)
    ensures
        u64_from_be(u64_to_be(v)) == v,
{
    assert(((((v >> 56u64) as u8) as u64) << 56u64) | ((((v >> 48u64) as u8) as u64) << 48u64) | ((((
    v >> 40u64) as u8) as u64) << 40u64) | ((((v >> 32u64) as u8) as u64) << 32u64) | ((((v
        >> 24u64) as u8) as u64) << 24u64) | ((((v >> 16u64) as u8) as u64) << 16u64) | ((((v
        >> 8u64) as u8) as u64) << 8u64) | ((v as u8) as u64) == v) by (bit_vector);
}

} // verus!
