//! The order of bits on the wire. The chip takes and gives every byte least
//! significant bit first. A host that can only shift most significant bit
//! first sends the byte reversed instead.

use vstd::prelude::*;
use crate::bus::BusEvent;
use crate::error::ReadWriteError;
use crate::protocol::bit_at;
use crate::record::{byte_of_bits, byte_of_low_bits, byte_result, fault_of, sampled};

verus! {

/// The bits of a byte in the order they cross the wire.
pub open spec fn wire_bits(byte: u8) -> Seq<bool> {
    Seq::new(8, |i: int| bit_at(byte, i as u8))
}

/// The byte with its bits in the opposite order: bit 0 where bit 7 was, and
/// so on.
pub open spec fn reversed(x: u8) -> u8 {
    ((x & 0x01) << 7) | ((x & 0x02) << 5) | ((x & 0x04) << 3) | ((x & 0x08) << 1) | ((x & 0x10)
        >> 1) | ((x & 0x20) >> 3) | ((x & 0x40) >> 5) | ((x & 0x80) >> 7)
}

/// Reverses the order of the bits of a byte.
pub fn reverse_bits(x: u8) -> (r: u8)
    ensures
        r == reversed(x),
{
    let nibbles: u8 = ((x & 0xF0) >> 4) | ((x & 0x0F) << 4);
    let pairs: u8 = ((nibbles & 0xCC) >> 2) | ((nibbles & 0x33) << 2);
    let bits: u8 = ((pairs & 0xAA) >> 1) | ((pairs & 0x55) << 1);
    assert(bits == reversed(x)) by (bit_vector)
        requires
            nibbles == ((x & 0xF0) >> 4) | ((x & 0x0F) << 4),
            pairs == ((nibbles & 0xCC) >> 2) | ((nibbles & 0x33) << 2),
            bits == ((pairs & 0xAA) >> 1) | ((pairs & 0x55) << 1),
    ;
    bits
}

/// Reversing twice gives the byte back.
pub proof fn lemma_reverse_twice(x: u8)
    ensures
        reversed(reversed(x)) == x,
{
    assert(reversed(reversed(x)) == x) by (bit_vector);
}

/// Bit `i` of the reversed byte is bit `7 - i` of the byte: shifting the
/// reversed byte out from the top puts the byte on the wire from the bottom.
pub proof fn lemma_reverse_bit(x: u8, i: u8)
    requires
        i < 8,
    ensures
        bit_at(reversed(x), i) == bit_at(x, (7 - i) as u8),
{
    let j: u8 = (7 - i) as u8;
    assert(((reversed(x) >> i) & 1 == 1) == ((x >> j) & 1 == 1)) by (bit_vector)
        requires
            i < 8,
            j == 7 - i,
    ;
}

/// A byte put on the wire bit by bit and taken off it bit by bit is the same
/// byte.
pub proof fn lemma_wire_round_trip(byte: u8)
    ensures
        byte_of_bits(wire_bits(byte)) == byte,
{
    let bits = wire_bits(byte);
    reveal_with_fuel(byte_of_low_bits, 9);
    let b0: u8 = if bit_at(byte, 0) { 0x01 } else { 0 };
    let b1: u8 = if bit_at(byte, 1) { 0x02 } else { 0 };
    let b2: u8 = if bit_at(byte, 2) { 0x04 } else { 0 };
    let b3: u8 = if bit_at(byte, 3) { 0x08 } else { 0 };
    let b4: u8 = if bit_at(byte, 4) { 0x10 } else { 0 };
    let b5: u8 = if bit_at(byte, 5) { 0x20 } else { 0 };
    let b6: u8 = if bit_at(byte, 6) { 0x40 } else { 0 };
    let b7: u8 = if bit_at(byte, 7) { 0x80 } else { 0 };
    assert(1u8 << 0u8 == 0x01 && 1u8 << 1u8 == 0x02 && 1u8 << 2u8 == 0x04 && 1u8 << 3u8 == 0x08
        && 1u8 << 4u8 == 0x10 && 1u8 << 5u8 == 0x20 && 1u8 << 6u8 == 0x40 && 1u8 << 7u8 == 0x80)
        by (bit_vector);
    assert(forall|x: u8| #[trigger] (x | 0) == x) by (bit_vector);
    assert(byte_of_low_bits(bits, 1) == 0u8 | b0);
    assert(byte_of_low_bits(bits, 2) == byte_of_low_bits(bits, 1) | b1);
    assert(byte_of_low_bits(bits, 3) == byte_of_low_bits(bits, 2) | b2);
    assert(byte_of_low_bits(bits, 4) == byte_of_low_bits(bits, 3) | b3);
    assert(byte_of_low_bits(bits, 5) == byte_of_low_bits(bits, 4) | b4);
    assert(byte_of_low_bits(bits, 6) == byte_of_low_bits(bits, 5) | b5);
    assert(byte_of_low_bits(bits, 7) == byte_of_low_bits(bits, 6) | b6);
    assert(byte_of_low_bits(bits, 8) == byte_of_low_bits(bits, 7) | b7);
    assert(((((((((0u8 | b0) | b1) | b2) | b3) | b4) | b5) | b6) | b7) == byte) by (bit_vector)
        requires
            b0 == if (byte >> 0u8) & 1 == 1 { 0x01u8 } else { 0u8 },
            b1 == if (byte >> 1u8) & 1 == 1 { 0x02u8 } else { 0u8 },
            b2 == if (byte >> 2u8) & 1 == 1 { 0x04u8 } else { 0u8 },
            b3 == if (byte >> 3u8) & 1 == 1 { 0x08u8 } else { 0u8 },
            b4 == if (byte >> 4u8) & 1 == 1 { 0x10u8 } else { 0u8 },
            b5 == if (byte >> 5u8) & 1 == 1 { 0x20u8 } else { 0u8 },
            b6 == if (byte >> 6u8) & 1 == 1 { 0x40u8 } else { 0u8 },
            b7 == if (byte >> 7u8) & 1 == 1 { 0x80u8 } else { 0u8 },
    ;
}

/// Reading undoes writing: where the samples of a read are the levels that
/// writing a byte puts on the line, in the same order, and no line refused,
/// the read returns that byte.
pub proof fn lemma_read_undoes_write(byte: u8, log: Seq<BusEvent>)
    requires
        fault_of(log) is None,
        sampled(log) == wire_bits(byte),
    ensures
        byte_result(log) == Ok::<u8, ReadWriteError>(byte),
{
    lemma_wire_round_trip(byte);
}

} // verus!
