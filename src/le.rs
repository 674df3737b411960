//! Little-endian encoding of fixed-width unsigned integers.
use byteorder::{ByteOrder, LittleEndian};
use vstd::prelude::*;

verus! {

/// The value of four bytes, least significant first.
pub open spec fn u32_of_bytes(b0: u8, b1: u8, b2: u8, b3: u8) -> u32 {
    (b0 as u32) | ((b1 as u32) << 8u32) | ((b2 as u32) << 16u32) | ((b3 as u32) << 24u32)
}

/// The four little-endian bytes of `n`.
pub open spec fn u32_le(n: u32) -> Seq<u8> {
    seq![
        (n & 0xff) as u8,
        ((n >> 8u32) & 0xff) as u8,
        ((n >> 16u32) & 0xff) as u8,
        ((n >> 24u32) & 0xff) as u8,
    ]
}

/// The value of the first four bytes of `b`, read little-endian.
pub open spec fn u32_from_le(b: Seq<u8>) -> u32
    recommends
        b.len() >= 4,
{
    u32_of_bytes(b[0], b[1], b[2], b[3])
}

/// The value of eight bytes, least significant first.
pub open spec fn u64_of_bytes(b0: u8, b1: u8, b2: u8, b3: u8, b4: u8, b5: u8, b6: u8, b7: u8) -> u64 {
    (b0 as u64) | ((b1 as u64) << 8u64) | ((b2 as u64) << 16u64) | ((b3 as u64) << 24u64) | ((
    b4 as u64) << 32u64) | ((b5 as u64) << 40u64) | ((b6 as u64) << 48u64) | ((b7 as u64)
        << 56u64)
}

/// The eight little-endian bytes of `n`.
pub open spec fn u64_le(n: u64) -> Seq<u8> {
    seq![
        (n & 0xff) as u8,
        ((n >> 8u64) & 0xff) as u8,
        ((n >> 16u64) & 0xff) as u8,
        ((n >> 24u64) & 0xff) as u8,
        ((n >> 32u64) & 0xff) as u8,
        ((n >> 40u64) & 0xff) as u8,
        ((n >> 48u64) & 0xff) as u8,
        ((n >> 56u64) & 0xff) as u8,
    ]
}

/// The value of the first eight bytes of `b`, read little-endian.
pub open spec fn u64_from_le(b: Seq<u8>) -> u64
    recommends
        b.len() >= 8,
{
    u64_of_bytes(b[0], b[1], b[2], b[3], b[4], b[5], b[6], b[7])
}

proof fn lemma_u32_bytes_round_trip(n: u32)
    by (bit_vector)
    ensures
        u32_of_bytes(
            (n & 0xff) as u8,
            ((n >> 8u32) & 0xff) as u8,
            ((n >> 16u32) & 0xff) as u8,
            ((n >> 24u32) & 0xff) as u8,
        ) == n,
{
}

proof fn lemma_u64_bytes_round_trip(n: u64)
    by (bit_vector)
    ensures
        u64_of_bytes(
            (n & 0xff) as u8,
            ((n >> 8u64) & 0xff) as u8,
            ((n >> 16u64) & 0xff) as u8,
            ((n >> 24u64) & 0xff) as u8,
            ((n >> 32u64) & 0xff) as u8,
            ((n >> 40u64) & 0xff) as u8,
            ((n >> 48u64) & 0xff) as u8,
            ((n >> 56u64) & 0xff) as u8,
        ) == n,
{
}

/// Reading back the encoding of `n`, followed by any bytes, gives `n`.
pub proof fn lemma_u32_le_round_trip(n: u32, rest: Seq<u8>)
    ensures
        u32_le(n).len() == 4,
        u32_from_le(u32_le(n) + rest) == n,
{
    lemma_u32_bytes_round_trip(n);
}

/// Reading back the encoding of `n`, followed by any bytes, gives `n`.
pub proof fn lemma_u64_le_round_trip(n: u64, rest: Seq<u8>)
    ensures
        u64_le(n).len() == 8,
        u64_from_le(u64_le(n) + rest) == n,
{
    lemma_u64_bytes_round_trip(n);
}

/// Relies on byteorder's `LittleEndian::write_u32`: it stores the bytes of
/// `n.to_le_bytes()` in the first four places of the buffer.
#[verifier::external_body]
pub(crate) fn write_u32_le(n: u32) -> (r: Vec<u8>)
    ensures
        r@ == u32_le(n),
{
    let mut buf = vec![0u8; 4];
    LittleEndian::write_u32(&mut buf, n);
    buf
}

/// Relies on byteorder's `LittleEndian::write_u64`: it stores the bytes of
/// `n.to_le_bytes()` in the first eight places of the buffer.
#[verifier::external_body]
pub(crate) fn write_u64_le(n: u64) -> (r: Vec<u8>)
    ensures
        r@ == u64_le(n),
{
    let mut buf = vec![0u8; 8];
    LittleEndian::write_u64(&mut buf, n);
    buf
}

/// Relies on byteorder's `LittleEndian::read_u32`: `u32::from_le_bytes` of
/// the first four bytes; it panics on a shorter buffer.
#[verifier::external_body]
pub(crate) fn read_u32_le(buf: &[u8]) -> (r: u32)
    requires
        buf@.len() >= 4,
    ensures
        r == u32_from_le(buf@),
{
    LittleEndian::read_u32(buf)
}

/// Relies on byteorder's `LittleEndian::read_u64`: `u64::from_le_bytes` of
/// the first eight bytes; it panics on a shorter buffer.
#[verifier::external_body]
pub(crate) fn read_u64_le(buf: &[u8]) -> (r: u64)
    requires
        buf@.len() >= 8,
    ensures
        r == u64_from_le(buf@),
{
    LittleEndian::read_u64(buf)
}

} // verus!
