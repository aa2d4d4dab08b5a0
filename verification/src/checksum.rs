//! The IEEE 802.3 cyclic redundancy check over 32 bits, which guards the
//! payload of every record.

use vstd::prelude::*;

verus! {

/// The generator polynomial of the IEEE checksum, in reflected bit order.
pub const IEEE: u32 = 0xedb8_8320;

/// One step of the reflected shift register: the register moves one bit to
/// the right, and the generator is folded in if a set bit fell off.
pub open spec fn crc_shift(reg: u32) -> u32 {
    if reg & 1 == 1 {
        (reg >> 1) ^ IEEE
    } else {
        reg >> 1
    }
}

/// Entry `i` of the byte-wise lookup table: eight steps starting from `i`.
pub open spec fn ieee_table(i: u8) -> u32 {
    crc_shift(
        crc_shift(
            crc_shift(crc_shift(crc_shift(crc_shift(crc_shift(crc_shift(i as u32)))))),
        ),
    )
}

/// The shift register after it has taken in one more byte.
pub open spec fn crc_feed(reg: u32, byte: u8) -> u32 {
    ieee_table(((reg & 0xff) as u8) ^ byte) ^ (reg >> 8)
}

/// The shift register after it has taken in all of `data`, starting from
/// all ones.
pub open spec fn crc_register(data: Seq<u8>) -> u32
    decreases data.len(),
{
    if data.len() == 0 {
        0xffff_ffff
    } else {
        crc_feed(crc_register(data.drop_last()), data.last())
    }
}

/// The IEEE checksum of `data`: the complement of the final register.
pub open spec fn crc32_ieee(data: Seq<u8>) -> u32 {
    !crc_register(data)
}

/// Two registers that agree after the same byte agreed before it.
pub proof fn lemma_feed_injective_in_register(r1: u32, r2: u32, byte: u8)
    by (bit_vector)
    ensures
        crc_feed(r1, byte) == crc_feed(r2, byte) ==> r1 == r2,
{
}

/// Two bytes that lead one register to the same value are the same byte.
pub proof fn lemma_feed_injective_in_byte(reg: u32, b1: u8, b2: u8)
    by (bit_vector)
    ensures
        crc_feed(reg, b1) == crc_feed(reg, b2) ==> b1 == b2,
{
}

proof fn lemma_complement_injective(a: u32, b: u32)
    by (bit_vector)
    ensures
        !a == !b ==> a == b,
{
}

/// Two byte strings of one length that differ in exactly one byte leave the
/// shift register in different states.
pub proof fn lemma_register_detects_one_byte(a: Seq<u8>, b: Seq<u8>, at: int)
    requires
        a.len() == b.len(),
        0 <= at < a.len(),
        a[at] != b[at],
        forall|j: int| 0 <= j < a.len() && j != at ==> a[j] == b[j],
    ensures
        crc_register(a) != crc_register(b),
    decreases a.len(),
{
    let a0 = a.drop_last();
    let b0 = b.drop_last();
    if at == a.len() - 1 {
        assert(a0 =~= b0);
        lemma_feed_injective_in_byte(crc_register(a0), a.last(), b.last());
    } else {
        lemma_register_detects_one_byte(a0, b0, at);
        lemma_feed_injective_in_register(crc_register(a0), crc_register(b0), a.last());
    }
}

/// The checksum tells apart any two byte strings of one length that differ
/// in exactly one byte, and so in particular in exactly one bit.
pub proof fn lemma_checksum_detects_one_byte(a: Seq<u8>, b: Seq<u8>, at: int)
    requires
        a.len() == b.len(),
        0 <= at < a.len(),
        a[at] != b[at],
        forall|j: int| 0 <= j < a.len() && j != at ==> a[j] == b[j],
    ensures
        crc32_ieee(a) != crc32_ieee(b),
{
    lemma_register_detects_one_byte(a, b, at);
    lemma_complement_injective(crc_register(a), crc_register(b));
}

/// The checksum of nothing is zero, and the checksum of the nine digits
/// `123456789` is the value by which this checksum is commonly checked.
pub proof fn lemma_check_values()
    ensures
        crc32_ieee(Seq::<u8>::empty()) == 0,
        crc32_ieee(seq![0x31u8, 0x32u8, 0x33u8, 0x34u8, 0x35u8, 0x36u8, 0x37u8, 0x38u8, 0x39u8])
            == 0xcbf4_3926,
{
    assert(!0xffff_ffffu32 == 0) by (bit_vector);
    let s0 = Seq::<u8>::empty();
    let s1 = s0.push(0x31u8);
    let s2 = s1.push(0x32u8);
    let s3 = s2.push(0x33u8);
    let s4 = s3.push(0x34u8);
    let s5 = s4.push(0x35u8);
    let s6 = s5.push(0x36u8);
    let s7 = s6.push(0x37u8);
    let s8 = s7.push(0x38u8);
    let s9 = s8.push(0x39u8);
    assert(s1.drop_last() =~= s0);
    assert(s2.drop_last() =~= s1);
    assert(s3.drop_last() =~= s2);
    assert(s4.drop_last() =~= s3);
    assert(s5.drop_last() =~= s4);
    assert(s6.drop_last() =~= s5);
    assert(s7.drop_last() =~= s6);
    assert(s8.drop_last() =~= s7);
    assert(s9.drop_last() =~= s8);
    assert(crc_feed(0xffff_ffff, 0x31) == 0x7c23_1048) by (bit_vector);
    assert(crc_feed(0x7c23_1048, 0x32) == 0xb0ac_bb32) by (bit_vector);
    assert(crc_feed(0xb0ac_bb32, 0x33) == 0x77b7_9c2d) by (bit_vector);
    assert(crc_feed(0x77b7_9c2d, 0x34) == 0x641c_1f5c) by (bit_vector);
    assert(crc_feed(0x641c_1f5c, 0x35) == 0x340a_c5e3) by (bit_vector);
    assert(crc_feed(0x340a_c5e3, 0x36) == 0xf68d_2c9e) by (bit_vector);
    assert(crc_feed(0xf68d_2c9e, 0x37) == 0xaffc_9660) by (bit_vector);
    assert(crc_feed(0xaffc_9660, 0x38) == 0x651f_2550) by (bit_vector);
    assert(crc_feed(0x651f_2550, 0x39) == 0x340b_c6d9) by (bit_vector);
    assert(!0x340b_c6d9u32 == 0xcbf4_3926) by (bit_vector);
    assert(crc_register(s0) == 0xffff_ffff);
    assert(crc_register(s1) == 0x7c23_1048);
    assert(crc_register(s2) == 0xb0ac_bb32);
    assert(crc_register(s3) == 0x77b7_9c2d);
    assert(crc_register(s4) == 0x641c_1f5c);
    assert(crc_register(s5) == 0x340a_c5e3);
    assert(crc_register(s6) == 0xf68d_2c9e);
    assert(crc_register(s7) == 0xaffc_9660);
    assert(crc_register(s8) == 0x651f_2550);
    assert(crc_register(s9) == 0x340b_c6d9);
    assert(s9 =~= seq![0x31u8, 0x32u8, 0x33u8, 0x34u8, 0x35u8, 0x36u8, 0x37u8, 0x38u8, 0x39u8]);
}

/// `crc::crc32::checksum_ieee`: the table-driven IEEE checksum of `data`.
/// The outside function starts from the complement of zero, replaces the
/// register by `table[low byte of register ^ byte] ^ (register >> 8)` for
/// each byte in turn, and returns the complement; its table holds, at each
/// index, eight single-bit steps of that index with the generator `IEEE`.
#[verifier::external_body]
pub(crate) fn checksum_ieee(data: &[u8]) -> (sum: u32)
    ensures
        sum == crc32_ieee(data@),
{
    crc::crc32::checksum_ieee(data)
}

} // verus!
