//! The shortest times that the chip allows between events on the wires,
//! and the proof that every transaction leaves at least that long.

use vstd::prelude::*;
use crate::bus::{BusEvent, BusOp, LineMode};
use crate::protocol::{
    bit_at, close_ops, open_ops, read_bit_ops, read_bits_ops, read_byte_ops, read_script,
    write_bit_ops, write_bits_ops, write_byte_ops, write_script, CLOCK_HIGH_NANOS,
    CLOCK_LOW_NANOS, HOLD_NANOS, RECOVERY_MICROS, SETTLE_MICROS, SETUP_NANOS, TURNAROUND_NANOS,
};
use crate::record::is_run;
use crate::shape::{lemma_run_ops, ops_of};

verus! {

/// Chip-select high to the first clock edge, in nanoseconds.
pub const MIN_SETTLE_NANOS: u32 = 4000;

/// Chip-select low between two transactions, in nanoseconds.
pub const MIN_RECOVERY_NANOS: u32 = 4000;

/// Last clock edge to chip-select low, in nanoseconds.
pub const MIN_HOLD_NANOS: u32 = 300;

/// Data stable before the clock rises, in nanoseconds.
pub const MIN_SETUP_NANOS: u32 = 200;

/// Clock high, and clock low, in nanoseconds.
pub const MIN_CLOCK_NANOS: u32 = 1000;

/// Data line changing hands to the next rising clock edge, in nanoseconds.
pub const MIN_TURNAROUND_NANOS: u32 = 280;

/// Where the wires stand, and how long ago each last changed, in
/// nanoseconds of waiting done since.
pub struct Pace {
    pub selected: bool,
    pub clock: bool,
    pub since_select: nat,
    pub since_edge: nat,
    pub since_data: nat,
    pub since_turn: nat,
}

impl Pace {
    /// The same wires after a wait.
    pub open spec fn waited(self, nanos: nat) -> Pace {
        Pace {
            since_select: self.since_select + nanos,
            since_edge: self.since_edge + nanos,
            since_data: self.since_data + nanos,
            since_turn: self.since_turn + nanos,
            ..self
        }
    }

    /// Between transactions, and for long enough that one may begin.
    pub open spec fn rested(self) -> bool {
        !self.selected && self.since_select >= MIN_RECOVERY_NANOS
    }

    /// Whether the chip allows this operation now. A clock edge within a
    /// transaction needs the clock to have stood long enough and chip-select
    /// to have settled, and a rising one needs the data to be set up and the
    /// line to have changed hands long enough ago. Chip-select rises over a
    /// low clock after its time low, and falls after the hold time. The host
    /// changes the data only while the clock is low, and samples it only
    /// once the clock has been high for its time.
    pub open spec fn in_time(self, op: BusOp) -> bool {
        match op {
            BusOp::Clock(high) => {
                ||| !self.selected
                ||| high == self.clock
                ||| {
                    &&& self.since_edge >= MIN_CLOCK_NANOS
                    &&& self.since_select >= MIN_SETTLE_NANOS
                    &&& high ==> self.since_data >= MIN_SETUP_NANOS && self.since_turn
                        >= MIN_TURNAROUND_NANOS
                }
            },
            BusOp::ChipSelect(high) => {
                ||| high == self.selected
                ||| if high {
                    !self.clock && self.since_select >= MIN_RECOVERY_NANOS
                } else {
                    self.since_edge >= MIN_HOLD_NANOS
                }
            },
            BusOp::DataOut(_) => self.selected ==> !self.clock,
            BusOp::DataIn => self.selected ==> self.clock && self.since_edge >= MIN_CLOCK_NANOS,
            _ => true,
        }
    }

    /// The wires after one operation. Driving a line to the level it has
    /// changes nothing.
    pub open spec fn step(self, op: BusOp) -> Pace {
        match op {
            BusOp::Clock(high) => if high == self.clock {
                self
            } else {
                Pace { clock: high, since_edge: 0, ..self }
            },
            BusOp::ChipSelect(high) => if high == self.selected {
                self
            } else {
                Pace { selected: high, since_select: 0, ..self }
            },
            BusOp::DataOut(_) => Pace { since_data: 0, ..self },
            BusOp::DataIn => self,
            BusOp::Release => Pace { since_turn: 0, ..self },
            BusOp::Reclaim => Pace { since_turn: 0, ..self },
            BusOp::WaitMicros(micros) => self.waited((micros * 1000) as nat),
            BusOp::WaitNanos(nanos) => self.waited(nanos as nat),
        }
    }

    /// The wires after a stretch of operations.
    pub open spec fn after(self, ops: Seq<BusOp>) -> Pace
        decreases ops.len(),
    {
        if ops.len() == 0 {
            self
        } else {
            self.after(ops.drop_last()).step(ops.last())
        }
    }

    /// Every one of the operations comes when the chip allows it.
    pub open spec fn keeps_time(self, ops: Seq<BusOp>) -> bool
        decreases ops.len(),
    {
        if ops.len() == 0 {
            true
        } else {
            self.keeps_time(ops.drop_last()) && self.after(ops.drop_last()).in_time(ops.last())
        }
    }

    /// Within a transaction, between two bits: the clock is low and has been
    /// for its time, and chip-select has settled.
    pub open spec fn between_bits(self) -> bool {
        &&& self.selected
        &&& !self.clock
        &&& self.since_select >= MIN_SETTLE_NANOS
        &&& self.since_edge >= CLOCK_LOW_NANOS
    }
}

/// One more operation comes in time if it does where the others left the
/// wires.
pub proof fn lemma_pace_push(pace: Pace, ops: Seq<BusOp>, op: BusOp)
    ensures
        pace.after(ops.push(op)) == pace.after(ops).step(op),
        pace.keeps_time(ops.push(op)) == (pace.keeps_time(ops) && pace.after(ops).in_time(op)),
{
    assert(ops.push(op).drop_last() =~= ops);
}

/// Two stretches of operations come in time if each does, the second from
/// where the first left the wires.
pub proof fn lemma_pace_concat(pace: Pace, a: Seq<BusOp>, b: Seq<BusOp>)
    ensures
        pace.after(a + b) == pace.after(a).after(b),
        pace.keeps_time(a + b) == (pace.keeps_time(a) && pace.after(a).keeps_time(b)),
    decreases b.len(),
{
    if b.len() == 0 {
        assert(a + b =~= a);
    } else {
        assert((a + b).drop_last() =~= a + b.drop_last());
        lemma_pace_concat(pace, a, b.drop_last());
    }
}

/// What comes in time as a whole comes in time as far as it got.
pub proof fn lemma_pace_prefix(pace: Pace, ops: Seq<BusOp>, n: int)
    requires
        pace.keeps_time(ops),
        0 <= n <= ops.len(),
    ensures
        pace.keeps_time(ops.take(n)),
{
    assert(ops =~= ops.take(n) + ops.skip(n));
    lemma_pace_concat(pace, ops.take(n), ops.skip(n));
}

/// A bit written between bits comes in time and ends between bits.
proof fn lemma_pace_write_bit(pace: Pace, bit: bool)
    requires
        pace.between_bits(),
    ensures
        pace.keeps_time(write_bit_ops(bit)),
        pace.after(write_bit_ops(bit)).between_bits(),
        pace.after(write_bit_ops(bit)).since_data >= MIN_SETUP_NANOS,
        pace.after(write_bit_ops(bit)).since_turn >= pace.since_turn,
{
    let e = Seq::<BusOp>::empty();
    let s1 = e.push(BusOp::DataOut(bit));
    let s2 = s1.push(BusOp::WaitNanos(SETUP_NANOS));
    let s3 = s2.push(BusOp::Clock(true));
    let s4 = s3.push(BusOp::WaitNanos(CLOCK_HIGH_NANOS));
    let s5 = s4.push(BusOp::Clock(false));
    let s6 = s5.push(BusOp::WaitNanos(CLOCK_LOW_NANOS));
    lemma_pace_push(pace, e, BusOp::DataOut(bit));
    lemma_pace_push(pace, s1, BusOp::WaitNanos(SETUP_NANOS));
    lemma_pace_push(pace, s2, BusOp::Clock(true));
    lemma_pace_push(pace, s3, BusOp::WaitNanos(CLOCK_HIGH_NANOS));
    lemma_pace_push(pace, s4, BusOp::Clock(false));
    lemma_pace_push(pace, s5, BusOp::WaitNanos(CLOCK_LOW_NANOS));
    assert(write_bit_ops(bit) =~= s6);
}

/// A bit read between bits comes in time and ends between bits.
proof fn lemma_pace_read_bit(pace: Pace)
    requires
        pace.between_bits(),
        pace.since_data >= MIN_SETUP_NANOS,
    ensures
        pace.keeps_time(read_bit_ops()),
        pace.after(read_bit_ops()).between_bits(),
        pace.after(read_bit_ops()).since_data >= MIN_SETUP_NANOS,
        pace.after(read_bit_ops()).since_turn >= MIN_TURNAROUND_NANOS,
{
    let e = Seq::<BusOp>::empty();
    let s1 = e.push(BusOp::WaitNanos(TURNAROUND_NANOS));
    let s2 = s1.push(BusOp::Clock(true));
    let s3 = s2.push(BusOp::WaitNanos(CLOCK_HIGH_NANOS));
    let s4 = s3.push(BusOp::DataIn);
    let s5 = s4.push(BusOp::Clock(false));
    let s6 = s5.push(BusOp::WaitNanos(CLOCK_LOW_NANOS));
    lemma_pace_push(pace, e, BusOp::WaitNanos(TURNAROUND_NANOS));
    lemma_pace_push(pace, s1, BusOp::Clock(true));
    lemma_pace_push(pace, s2, BusOp::WaitNanos(CLOCK_HIGH_NANOS));
    lemma_pace_push(pace, s3, BusOp::DataIn);
    lemma_pace_push(pace, s4, BusOp::Clock(false));
    lemma_pace_push(pace, s5, BusOp::WaitNanos(CLOCK_LOW_NANOS));
    assert(read_bit_ops() =~= s6);
}

/// So do any number of bits written.
proof fn lemma_pace_write_bits(pace: Pace, byte: u8, n: nat)
    requires
        pace.between_bits(),
        pace.since_turn >= MIN_TURNAROUND_NANOS,
    ensures
        pace.keeps_time(write_bits_ops(byte, n)),
        pace.after(write_bits_ops(byte, n)).between_bits(),
        pace.after(write_bits_ops(byte, n)).since_turn >= MIN_TURNAROUND_NANOS,
        n > 0 ==> pace.after(write_bits_ops(byte, n)).since_data >= MIN_SETUP_NANOS,
    decreases n,
{
    if n > 0 {
        let k = (n - 1) as nat;
        let bit = bit_at(byte, k as u8);
        lemma_pace_write_bits(pace, byte, k);
        lemma_pace_concat(pace, write_bits_ops(byte, k), write_bit_ops(bit));
        lemma_pace_write_bit(pace.after(write_bits_ops(byte, k)), bit);
    }
}

/// So do any number of bits read.
proof fn lemma_pace_read_bits(pace: Pace, n: nat)
    requires
        pace.between_bits(),
        pace.since_data >= MIN_SETUP_NANOS,
    ensures
        pace.keeps_time(read_bits_ops(n)),
        pace.after(read_bits_ops(n)).between_bits(),
        pace.after(read_bits_ops(n)).since_data >= MIN_SETUP_NANOS,
    decreases n,
{
    if n > 0 {
        let k = (n - 1) as nat;
        lemma_pace_read_bits(pace, k);
        lemma_pace_concat(pace, read_bits_ops(k), read_bit_ops());
        lemma_pace_read_bit(pace.after(read_bits_ops(k)));
    }
}

/// So does a byte written.
proof fn lemma_pace_write_byte(pace: Pace, byte: u8)
    requires
        pace.between_bits(),
        pace.since_turn >= MIN_TURNAROUND_NANOS,
    ensures
        pace.keeps_time(write_byte_ops(byte)),
        pace.after(write_byte_ops(byte)).between_bits(),
        pace.after(write_byte_ops(byte)).since_turn >= MIN_TURNAROUND_NANOS,
        pace.after(write_byte_ops(byte)).since_data >= MIN_SETUP_NANOS,
{
    let low = seq![BusOp::Clock(false)];
    lemma_pace_push(pace, Seq::empty(), BusOp::Clock(false));
    assert(low =~= Seq::<BusOp>::empty().push(BusOp::Clock(false)));
    lemma_pace_write_bits(pace, byte, 8);
    lemma_pace_concat(pace, low, write_bits_ops(byte, 8));
}

/// So does a byte read, with the line changing hands before and after.
proof fn lemma_pace_read_byte(pace: Pace)
    requires
        pace.between_bits(),
        pace.since_data >= MIN_SETUP_NANOS,
    ensures
        pace.keeps_time(read_byte_ops()),
        pace.after(read_byte_ops()).between_bits(),
{
    let e = Seq::<BusOp>::empty();
    let head = seq![BusOp::Clock(false), BusOp::Release];
    lemma_pace_push(pace, e, BusOp::Clock(false));
    lemma_pace_push(pace, e.push(BusOp::Clock(false)), BusOp::Release);
    assert(head =~= e.push(BusOp::Clock(false)).push(BusOp::Release));
    lemma_pace_read_bits(pace.after(head), 8);
    lemma_pace_concat(pace, head, read_bits_ops(8));
    lemma_pace_push(pace, head + read_bits_ops(8), BusOp::Reclaim);
    assert(read_byte_ops() =~= (head + read_bits_ops(8)).push(BusOp::Reclaim));
}

/// Opening a transaction from rest comes in time and ends before the first
/// bit.
proof fn lemma_pace_open(pace: Pace, mode: LineMode)
    requires
        pace.rested(),
    ensures
        pace.keeps_time(open_ops(mode)),
        pace.after(open_ops(mode)).between_bits(),
        pace.after(open_ops(mode)).since_turn >= MIN_TURNAROUND_NANOS,
{
    let e = Seq::<BusOp>::empty();
    let first = if mode is Input {
        seq![BusOp::Reclaim]
    } else {
        e
    };
    if mode is Input {
        lemma_pace_push(pace, e, BusOp::Reclaim);
        assert(first =~= e.push(BusOp::Reclaim));
    }
    let held = pace.after(first);
    let s1 = e.push(BusOp::Clock(false));
    let s2 = s1.push(BusOp::ChipSelect(true));
    let s3 = s2.push(BusOp::WaitMicros(SETTLE_MICROS));
    lemma_pace_push(held, e, BusOp::Clock(false));
    lemma_pace_push(held, s1, BusOp::ChipSelect(true));
    lemma_pace_push(held, s2, BusOp::WaitMicros(SETTLE_MICROS));
    lemma_pace_concat(pace, first, s3);
    assert(open_ops(mode) =~= first + s3);
}

/// Closing a transaction after the last bit comes in time and ends at rest.
proof fn lemma_pace_close(pace: Pace)
    requires
        pace.between_bits(),
    ensures
        pace.keeps_time(close_ops()),
        pace.after(close_ops()).rested(),
        !pace.after(close_ops()).clock,
{
    let e = Seq::<BusOp>::empty();
    let s1 = e.push(BusOp::WaitNanos(HOLD_NANOS));
    let s2 = s1.push(BusOp::ChipSelect(false));
    let s3 = s2.push(BusOp::WaitMicros(RECOVERY_MICROS));
    lemma_pace_push(pace, e, BusOp::WaitNanos(HOLD_NANOS));
    lemma_pace_push(pace, s1, BusOp::ChipSelect(false));
    lemma_pace_push(pace, s2, BusOp::WaitMicros(RECOVERY_MICROS));
    assert(close_ops() =~= s3);
}

/// A register write that begins between transactions comes in time from
/// its first operation to its last, and ends so that the next transaction
/// may begin at once.
pub proof fn lemma_write_keeps_time(pace: Pace, mode: LineMode, addr: u8, data: u8)
    requires
        pace.rested(),
    ensures
        pace.keeps_time(write_script(mode, addr, data)),
        pace.after(write_script(mode, addr, data)).rested(),
{
    let s1 = open_ops(mode);
    let s2 = s1 + write_byte_ops(addr);
    let s3 = s2 + write_byte_ops(data);
    lemma_pace_open(pace, mode);
    lemma_pace_concat(pace, s1, write_byte_ops(addr));
    lemma_pace_write_byte(pace.after(s1), addr);
    lemma_pace_concat(pace, s2, write_byte_ops(data));
    lemma_pace_write_byte(pace.after(s2), data);
    lemma_pace_concat(pace, s3, close_ops());
    lemma_pace_close(pace.after(s3));
}

/// A register read that begins between transactions comes in time from its
/// first operation to its last, and ends so that the next transaction may
/// begin at once.
pub proof fn lemma_read_keeps_time(pace: Pace, mode: LineMode, addr: u8)
    requires
        pace.rested(),
    ensures
        pace.keeps_time(read_script(mode, addr)),
        pace.after(read_script(mode, addr)).rested(),
{
    let s1 = open_ops(mode);
    let s2 = s1 + write_byte_ops(addr);
    let s3 = s2 + read_byte_ops();
    lemma_pace_open(pace, mode);
    lemma_pace_concat(pace, s1, write_byte_ops(addr));
    lemma_pace_write_byte(pace.after(s1), addr);
    lemma_pace_concat(pace, s2, read_byte_ops());
    lemma_pace_read_byte(pace.after(s2));
    lemma_pace_concat(pace, s3, close_ops());
    lemma_pace_close(pace.after(s3));
}

/// Whatever a run of a script did came in time if the whole script does,
/// also where a refusal cut the run short.
pub proof fn lemma_run_keeps_time(pace: Pace, script: Seq<BusOp>, log: Seq<BusEvent>)
    requires
        pace.keeps_time(script),
        is_run(script, log),
    ensures
        pace.keeps_time(ops_of(log)),
{
    lemma_run_ops(script, log);
    lemma_pace_prefix(pace, script, log.len() as int);
}

/// The waits that the driver makes are at least those that the chip asks
/// for.
pub proof fn lemma_waits_suffice()
    ensures
        SETTLE_MICROS * 1000 >= MIN_SETTLE_NANOS,
        RECOVERY_MICROS * 1000 >= MIN_RECOVERY_NANOS,
        HOLD_NANOS >= MIN_HOLD_NANOS,
        SETUP_NANOS >= MIN_SETUP_NANOS,
        CLOCK_HIGH_NANOS >= MIN_CLOCK_NANOS,
        CLOCK_LOW_NANOS >= MIN_CLOCK_NANOS,
        TURNAROUND_NANOS >= MIN_TURNAROUND_NANOS,
{
}

} // verus!
