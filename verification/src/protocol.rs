//! The wire protocol as plain data: which operations make up a transaction,
//! in which order, and with which waits between them.

use vstd::prelude::*;
use crate::bus::{BusOp, LineMode};

verus! {

/// Chip-select to first clock edge, in microseconds.
pub const SETTLE_MICROS: u32 = 4;

/// Chip-select inactive time before the next transaction, in microseconds.
pub const RECOVERY_MICROS: u32 = 4;

/// Last clock edge to chip-select release, in nanoseconds.
pub const HOLD_NANOS: u32 = 300;

/// Before each clock edge that reads, in nanoseconds: covers the time the
/// line needs after it changes hands.
pub const TURNAROUND_NANOS: u32 = 300;

/// Data valid before the rising clock edge, in nanoseconds.
pub const SETUP_NANOS: u32 = 350;

/// Clock high time, in nanoseconds.
pub const CLOCK_HIGH_NANOS: u32 = 2000;

/// Clock low time, in nanoseconds.
pub const CLOCK_LOW_NANOS: u32 = 1700;

/// Bit `i` of a byte, bit 0 being the least significant.
pub open spec fn bit_at(byte: u8, i: u8) -> bool {
    (byte >> i) & 1 == 1
}

/// Puts one bit on the wire: data first, then a clock pulse.
pub open spec fn write_bit_ops(bit: bool) -> Seq<BusOp> {
    seq![
        BusOp::DataOut(bit),
        BusOp::WaitNanos(SETUP_NANOS),
        BusOp::Clock(true),
        BusOp::WaitNanos(CLOCK_HIGH_NANOS),
        BusOp::Clock(false),
        BusOp::WaitNanos(CLOCK_LOW_NANOS),
    ]
}

/// The lowest `n` bits of a byte, least significant first.
pub open spec fn write_bits_ops(byte: u8, n: nat) -> Seq<BusOp>
    decreases n,
{
    if n == 0 {
        Seq::empty()
    } else {
        write_bits_ops(byte, (n - 1) as nat) + write_bit_ops(bit_at(byte, (n - 1) as u8))
    }
}

/// A whole byte, least significant bit first, from a low clock.
pub open spec fn write_byte_ops(byte: u8) -> Seq<BusOp> {
    seq![BusOp::Clock(false)] + write_bits_ops(byte, 8)
}

/// Takes one bit off the wire: a clock pulse, sampled at the end of its high
/// time, before the clock falls and the chip moves on to the next bit.
pub open spec fn read_bit_ops() -> Seq<BusOp> {
    seq![
        BusOp::WaitNanos(TURNAROUND_NANOS),
        BusOp::Clock(true),
        BusOp::WaitNanos(CLOCK_HIGH_NANOS),
        BusOp::DataIn,
        BusOp::Clock(false),
        BusOp::WaitNanos(CLOCK_LOW_NANOS),
    ]
}

/// `n` bits read, one after the other.
pub open spec fn read_bits_ops(n: nat) -> Seq<BusOp>
    decreases n,
{
    if n == 0 {
        Seq::empty()
    } else {
        read_bits_ops((n - 1) as nat) + read_bit_ops()
    }
}

/// A whole byte read: the line changes hands, eight bits come in, the line
/// comes back.
pub open spec fn read_byte_ops() -> Seq<BusOp> {
    seq![BusOp::Clock(false), BusOp::Release] + read_bits_ops(8) + seq![BusOp::Reclaim]
}

/// Opens a transaction. A data line left with the chip by a read that was cut
/// short is taken back first.
pub open spec fn open_ops(mode: LineMode) -> Seq<BusOp> {
    (if mode is Input {
        seq![BusOp::Reclaim]
    } else {
        Seq::<BusOp>::empty()
    }) + seq![BusOp::Clock(false), BusOp::ChipSelect(true), BusOp::WaitMicros(SETTLE_MICROS)]
}

/// Closes a transaction.
pub open spec fn close_ops() -> Seq<BusOp> {
    seq![
        BusOp::WaitNanos(HOLD_NANOS),
        BusOp::ChipSelect(false),
        BusOp::WaitMicros(RECOVERY_MICROS),
    ]
}

/// Everything a register write does on the bus, start to end.
pub open spec fn write_script(mode: LineMode, addr: u8, data: u8) -> Seq<BusOp> {
    open_ops(mode) + write_byte_ops(addr) + write_byte_ops(data) + close_ops()
}

/// Everything a register read does on the bus, start to end.
pub open spec fn read_script(mode: LineMode, addr: u8) -> Seq<BusOp> {
    open_ops(mode) + write_byte_ops(addr) + read_byte_ops() + close_ops()
}

/// Six operations go into each bit written, and the first bits of a byte are
/// written the same however many follow.
pub proof fn lemma_write_bits_grow(byte: u8, i: nat, n: nat)
    requires
        i <= n,
    ensures
        write_bits_ops(byte, i).len() == 6 * i,
        write_bits_ops(byte, n).len() == 6 * n,
        forall|j: int| 0 <= j < 6 * i ==> write_bits_ops(byte, i)[j] == write_bits_ops(byte, n)[j],
    decreases n,
{
    if n == 0 {
    } else if i == n {
        lemma_write_bits_grow(byte, (n - 1) as nat, (n - 1) as nat);
    } else {
        lemma_write_bits_grow(byte, i, (n - 1) as nat);
    }
}

/// Six operations go into each bit read.
pub proof fn lemma_read_bits_grow(i: nat, n: nat)
    requires
        i <= n,
    ensures
        read_bits_ops(i).len() == 6 * i,
        read_bits_ops(n).len() == 6 * n,
        forall|j: int| 0 <= j < 6 * i ==> read_bits_ops(i)[j] == read_bits_ops(n)[j],
    decreases n,
{
    if n == 0 {
    } else if i == n {
        lemma_read_bits_grow((n - 1) as nat, (n - 1) as nat);
    } else {
        lemma_read_bits_grow(i, (n - 1) as nat);
    }
}

/// A read takes 106 operations, and one more where the data line has to be
/// taken back first.
pub proof fn lemma_read_script_len(mode: LineMode, addr: u8)
    ensures
        read_script(mode, addr).len() == if mode is Input {
            107nat
        } else {
            106nat
        },
{
    lemma_write_bits_grow(addr, 8, 8);
    lemma_read_bits_grow(8, 8);
}

/// A write takes 104 operations, and one more where the data line has to be
/// taken back first.
pub proof fn lemma_write_script_len(mode: LineMode, addr: u8, data: u8)
    ensures
        write_script(mode, addr, data).len() == if mode is Input {
            105nat
        } else {
            104nat
        },
{
    lemma_write_bits_grow(addr, 8, 8);
    lemma_write_bits_grow(data, 8, 8);
}

/// Six operations go into each bit, written or read.
proof fn lemma_bits_len(byte: u8, n: nat)
    ensures
        write_bits_ops(byte, n).len() == 6 * n,
        read_bits_ops(n).len() == 6 * n,
    decreases n,
{
    if n > 0 {
        lemma_bits_len(byte, (n - 1) as nat);
    }
}

/// Bit `i` of a byte written has the `i`-th six operations to itself: its
/// level goes on the data line, and then the pulse comes whose rising edge
/// carries it. Bit 0 goes first.
pub proof fn lemma_write_bits_place(byte: u8, n: nat, i: int)
    requires
        0 <= i < n,
    ensures
        write_bits_ops(byte, n).len() == 6 * n,
        write_bits_ops(byte, n).subrange(6 * i, 6 * i + 6) == write_bit_ops(bit_at(byte, i as u8)),
        write_bits_ops(byte, n)[6 * i] == BusOp::DataOut(bit_at(byte, i as u8)),
        write_bits_ops(byte, n)[6 * i + 2] == BusOp::Clock(true),
    decreases n,
{
    let before = write_bits_ops(byte, (n - 1) as nat);
    let last = write_bit_ops(bit_at(byte, (n - 1) as u8));
    let piece = write_bits_ops(byte, n).subrange(6 * i, 6 * i + 6);
    lemma_bits_len(byte, (n - 1) as nat);
    assert(write_bits_ops(byte, n) == before + last);
    if i == n - 1 {
        assert(piece =~= last);
    } else {
        lemma_write_bits_place(byte, (n - 1) as nat, i);
        assert(piece =~= before.subrange(6 * i, 6 * i + 6));
    }
    assert(piece[0] == write_bits_ops(byte, n)[6 * i]);
    assert(piece[2] == write_bits_ops(byte, n)[6 * i + 2]);
}

/// Bit `i` of a byte read has the `i`-th six operations to itself: one
/// pulse, with one sample at the end of its high time.
pub proof fn lemma_read_bits_place(n: nat, i: int)
    requires
        0 <= i < n,
    ensures
        read_bits_ops(n).len() == 6 * n,
        read_bits_ops(n).subrange(6 * i, 6 * i + 6) == read_bit_ops(),
        read_bits_ops(n)[6 * i + 1] == BusOp::Clock(true),
        read_bits_ops(n)[6 * i + 3] == BusOp::DataIn,
        read_bits_ops(n)[6 * i + 4] == BusOp::Clock(false),
    decreases n,
{
    let before = read_bits_ops((n - 1) as nat);
    let piece = read_bits_ops(n).subrange(6 * i, 6 * i + 6);
    lemma_bits_len(0, (n - 1) as nat);
    assert(read_bits_ops(n) == before + read_bit_ops());
    if i == n - 1 {
        assert(piece =~= read_bit_ops());
    } else {
        lemma_read_bits_place((n - 1) as nat, i);
        assert(piece =~= before.subrange(6 * i, 6 * i + 6));
    }
    assert(piece[1] == read_bits_ops(n)[6 * i + 1]);
    assert(piece[3] == read_bits_ops(n)[6 * i + 3]);
    assert(piece[4] == read_bits_ops(n)[6 * i + 4]);
}

} // verus!
