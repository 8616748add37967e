//! Binary-coded decimal: one decimal digit per nibble.

use vstd::prelude::*;

verus! {

/// The byte whose high nibble is the tens digit of `v` and whose low nibble is
/// its ones digit. Above 99 the tens no longer fit a nibble and wrap modulo 16.
pub open spec fn bcd_of(v: u8) -> u8 {
    ((((v / 10) % 16) * 16) + v % 10) as u8
}

/// The number that a byte stands for when each nibble is read as a decimal
/// digit. A nibble above 9 still counts as its value.
pub open spec fn bcd_value(raw: u8) -> u8 {
    ((raw / 16) * 10 + raw % 16) as u8
}

/// Both nibbles are decimal digits.
pub open spec fn is_bcd(raw: u8) -> bool {
    raw / 16 <= 9 && raw % 16 <= 9
}

/// A number as BCD. Every two-digit number has its tens in the high nibble
/// and its ones in the low.
pub fn encode_bcd(bcd: u8) -> (r: u8)
    ensures
        r == bcd_of(bcd),
        bcd <= 99 ==> r == (bcd / 10) * 16 + bcd % 10,
{
    let tens: u8 = bcd / 10;
    let ones: u8 = bcd % 10;
    assert((tens << 4) == (tens % 16) * 16) by (bit_vector);
    ones + (tens << 4)
}

/// The number that a BCD byte stands for. Bits that are not part of the
/// number are to be masked off before.
pub fn decode_bcd(bcd: u8) -> (r: u8)
    ensures
        r == bcd_value(bcd),
        r == (bcd / 16) * 10 + bcd % 16,
{
    assert(bcd & 0b0000_1111 == bcd % 16) by (bit_vector);
    assert((bcd & 0b1111_0000) >> 4 == bcd / 16) by (bit_vector);
    (bcd & 0b0000_1111) + ((bcd & 0b1111_0000) >> 4) * 10
}

/// Decoding what was encoded gives the number back, for every two-digit number.
pub proof fn lemma_decode_encode(v: u8)
    requires
        v <= 99,
    ensures
        bcd_value(bcd_of(v)) == v,
        is_bcd(bcd_of(v)),
        bcd_of(v) == (v / 10) * 16 + v % 10,
        bcd_of(v) <= 0x99,
{
    let tens = v / 10;
    let ones = v % 10;
    assert(tens <= 9 && ones <= 9);
    assert(tens % 16 == tens);
    let packed = tens * 16 + ones;
    assert(bcd_of(v) == packed);
    assert(packed / 16 == tens && packed % 16 == ones);
}

} // verus!
