//! Little-endian encoding of 32-bit integers, as used by the record header.

use byteorder::{ByteOrder, LittleEndian};
use vstd::prelude::*;

verus! {

/// The four bytes of `n`, least significant byte first.
pub open spec fn u32_le_bytes(n: u32) -> Seq<u8> {
    seq![
        (n % 256) as u8,
        ((n / 256) % 256) as u8,
        ((n / 65536) % 256) as u8,
        (n / 16777216) as u8,
    ]
}

/// The number whose little-endian encoding is the first four bytes of `s`.
pub open spec fn u32_from_le(s: Seq<u8>) -> u32
    recommends
        s.len() >= 4,
{
    (s[0] + s[1] * 256 + s[2] * 65536 + s[3] * 16777216) as u32
}

proof fn lemma_digits_of_sum(a: u32, b: u32, c: u32, d: u32)
    by (bit_vector)
    requires
        a < 256,
        b < 256,
        c < 256,
        d < 256,
    ensures
        a + b * 256 + c * 65536 + d * 16777216 < 0x1_0000_0000,
        (a + b * 256 + c * 65536 + d * 16777216) % 256 == a,
        ((a + b * 256 + c * 65536 + d * 16777216) / 256) % 256 == b,
        ((a + b * 256 + c * 65536 + d * 16777216) / 65536) % 256 == c,
        (a + b * 256 + c * 65536 + d * 16777216) / 16777216 == d,
{
}

proof fn lemma_sum_of_digits(n: u32)
    by (bit_vector)
    ensures
        n / 16777216 < 256,
        (n % 256) + ((n / 256) % 256) * 256 + ((n / 65536) % 256) * 65536 + (n / 16777216)
            * 16777216 == n,
{
}

/// Decoding undoes encoding, whatever follows the four bytes.
pub proof fn lemma_u32_le_round_trip(n: u32, rest: Seq<u8>)
    ensures
        u32_le_bytes(n).len() == 4,
        u32_from_le(u32_le_bytes(n) + rest) == n,
{
    let s = u32_le_bytes(n) + rest;
    assert(s[0] == u32_le_bytes(n)[0]);
    assert(s[1] == u32_le_bytes(n)[1]);
    assert(s[2] == u32_le_bytes(n)[2]);
    assert(s[3] == u32_le_bytes(n)[3]);
    lemma_sum_of_digits(n);
}

/// Encoding undoes decoding on the four bytes that were read.
pub proof fn lemma_u32_le_bytes_of_decoded(s: Seq<u8>)
    requires
        s.len() >= 4,
    ensures
        u32_le_bytes(u32_from_le(s)) == s.subrange(0, 4),
{
    lemma_digits_of_sum(s[0] as u32, s[1] as u32, s[2] as u32, s[3] as u32);
    assert(u32_le_bytes(u32_from_le(s)) =~= s.subrange(0, 4));
}

/// `byteorder::LittleEndian::read_u32`: reads the first four bytes of `buf`
/// as a little-endian number. The outside function panics on a shorter
/// buffer, which the precondition rules out.
#[verifier::external_body]
pub(crate) fn read_u32_le(buf: &[u8]) -> (n: u32)
    requires
        buf@.len() >= 4,
    ensures
        n == u32_from_le(buf@),
{
    LittleEndian::read_u32(buf)
}

/// `byteorder::LittleEndian::write_u32`: fills a four-byte buffer with the
/// little-endian encoding of `n`.
#[verifier::external_body]
pub(crate) fn write_u32_le(n: u32) -> (bytes: [u8; 4])
    ensures
        bytes@ == u32_le_bytes(n),
{
    let mut bytes = [0u8; 4];
    LittleEndian::write_u32(&mut bytes, n);
    bytes
}

} // verus!
