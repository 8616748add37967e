//! The far end of the wires: a model of what the chip does with what the
//! driver sends, and the proof that the two understand each other. A write
//! leaves its byte in the register it names, and a read brings back the byte
//! that the register holds.

use vstd::prelude::*;
use crate::bitorder::{lemma_wire_round_trip, wire_bits};
use crate::bus::{BusEvent, BusOp, LineMode, Reply};
use crate::protocol::{
    bit_at, close_ops, open_ops, read_bit_ops, read_bits_ops, read_byte_ops, read_script,
    write_bit_ops, write_bits_ops, write_byte_ops, write_script, CLOCK_HIGH_NANOS,
    CLOCK_LOW_NANOS, HOLD_NANOS, RECOVERY_MICROS, SETTLE_MICROS, SETUP_NANOS, TURNAROUND_NANOS,
};
use crate::error::ReadWriteError;
use crate::protocol::lemma_read_script_len;
use crate::record::{byte_of_bits, byte_of_low_bits, byte_result, fault_of, is_run, sampled};
use crate::registers::Register;
use crate::shape::{lemma_whole_run, ops_of};

verus! {

/// The chip as the bus sees it.
pub struct Chip {
    /// The registers, by command byte without its direction bit.
    pub cells: Seq<u8>,
    /// Chip-select is high.
    pub selected: bool,
    /// The clock is high.
    pub clock: bool,
    /// The host drives the data line.
    pub host_drives: bool,
    /// The level the host last drove.
    pub host: bool,
    /// The level the chip puts on the line when the host lets it.
    pub answer: bool,
    /// Rising clock edges since chip-select rose.
    pub edges: nat,
    /// The command byte as far as it has come in.
    pub command: u8,
    /// The data byte as far as it has come in.
    pub incoming: u8,
}

/// The register that a command byte names.
pub open spec fn cell_of(command: u8) -> int {
    (command >> 1u8) as int
}

/// Bit 0 of a command byte asks for a read.
pub open spec fn asks_read(command: u8) -> bool {
    bit_at(command, 0)
}

/// A byte with one more bit shifted in at place `at`.
pub open spec fn with_bit(byte: u8, at: nat, level: bool) -> u8 {
    if level {
        byte | (1u8 << (at as u8))
    } else {
        byte
    }
}

impl Chip {
    /// There is a cell for every command byte.
    pub open spec fn well_formed(self) -> bool {
        self.cells.len() == 128
    }

    /// Between transactions: chip-select is low.
    pub open spec fn idle(self) -> bool {
        self.well_formed() && !self.selected
    }

    /// The level on the data line.
    pub open spec fn line(self) -> bool {
        if self.host_drives {
            self.host
        } else {
            self.answer
        }
    }

    /// The clock rises while the chip is selected: the chip takes the level
    /// on the line as the next bit of the command byte or, in a write, of
    /// the data byte, whose last bit completes the write.
    pub open spec fn rising(self) -> Chip {
        let counted = Chip { clock: true, edges: self.edges + 1, ..self };
        if self.edges < 8 {
            Chip { command: with_bit(self.command, self.edges, self.line()), ..counted }
        } else if self.edges < 16 && !asks_read(self.command) {
            let incoming = with_bit(self.incoming, (self.edges - 8) as nat, self.line());
            Chip {
                incoming,
                cells: if self.edges == 15 {
                    self.cells.update(cell_of(self.command), incoming)
                } else {
                    self.cells
                },
                ..counted
            }
        } else {
            counted
        }
    }

    /// The clock falls while the chip is selected: in a read, the chip puts
    /// the next bit of the register on the line.
    pub open spec fn falling(self) -> Chip {
        if asks_read(self.command) && 8 <= self.edges < 16 {
            Chip {
                clock: false,
                answer: bit_at(self.cells[cell_of(self.command)], (self.edges - 8) as u8),
                ..self
            }
        } else {
            Chip { clock: false, ..self }
        }
    }

    /// The chip after one operation of the driver.
    pub open spec fn step(self, op: BusOp) -> Chip {
        match op {
            BusOp::ChipSelect(high) => if high && !self.selected {
                Chip { selected: true, edges: 0, command: 0, incoming: 0, ..self }
            } else {
                Chip { selected: high, ..self }
            },
            BusOp::Clock(high) => if !self.selected || high == self.clock {
                Chip { clock: high, ..self }
            } else if high {
                self.rising()
            } else {
                self.falling()
            },
            BusOp::DataOut(level) => Chip { host: level, ..self },
            BusOp::Release => Chip { host_drives: false, ..self },
            BusOp::Reclaim => Chip { host_drives: true, ..self },
            _ => self,
        }
    }

    /// The chip after a stretch of operations.
    pub open spec fn after(self, ops: Seq<BusOp>) -> Chip
        decreases ops.len(),
    {
        if ops.len() == 0 {
            self
        } else {
            self.after(ops.drop_last()).step(ops.last())
        }
    }
}

/// Every sample in the record is the level that the line had, with the chip
/// in the state the operations before that sample left it in.
pub open spec fn heard(chip: Chip, log: Seq<BusEvent>) -> bool
    decreases log.len(),
{
    if log.len() == 0 {
        true
    } else {
        let before = log.drop_last();
        &&& heard(chip, before)
        &&& log.last().op is DataIn ==> log.last().reply == Reply::Level(
            chip.after(ops_of(before)).line(),
        )
    }
}

/// One more operation takes the chip one step further.
pub proof fn lemma_chip_push(chip: Chip, ops: Seq<BusOp>, op: BusOp)
    ensures
        chip.after(ops.push(op)) == chip.after(ops).step(op),
{
    assert(ops.push(op).drop_last() =~= ops);
}

/// Two stretches of operations, one after the other, take the chip through
/// the first and on through the second.
pub proof fn lemma_chip_concat(chip: Chip, a: Seq<BusOp>, b: Seq<BusOp>)
    ensures
        chip.after(a + b) == chip.after(a).after(b),
    decreases b.len(),
{
    if b.len() == 0 {
        assert(a + b =~= a);
    } else {
        assert((a + b).drop_last() =~= a + b.drop_last());
        lemma_chip_concat(chip, a, b.drop_last());
    }
}

/// One bit written: the chip has counted one more edge and taken the bit.
pub proof fn lemma_chip_write_bit(chip: Chip, bit: bool)
    requires
        chip.selected,
        !chip.clock,
        chip.host_drives,
    ensures
        chip.after(write_bit_ops(bit)) == (Chip { host: bit, ..chip }).rising().falling(),
{
    let e = Seq::<BusOp>::empty();
    let s1 = e.push(BusOp::DataOut(bit));
    let s2 = s1.push(BusOp::WaitNanos(SETUP_NANOS));
    let s3 = s2.push(BusOp::Clock(true));
    let s4 = s3.push(BusOp::WaitNanos(CLOCK_HIGH_NANOS));
    let s5 = s4.push(BusOp::Clock(false));
    let s6 = s5.push(BusOp::WaitNanos(CLOCK_LOW_NANOS));
    lemma_chip_push(chip, e, BusOp::DataOut(bit));
    lemma_chip_push(chip, s1, BusOp::WaitNanos(SETUP_NANOS));
    lemma_chip_push(chip, s2, BusOp::Clock(true));
    lemma_chip_push(chip, s3, BusOp::WaitNanos(CLOCK_HIGH_NANOS));
    lemma_chip_push(chip, s4, BusOp::Clock(false));
    lemma_chip_push(chip, s5, BusOp::WaitNanos(CLOCK_LOW_NANOS));
    assert(write_bit_ops(bit) =~= s6);
}

/// The bits of a command byte go out: the chip counts the edges and puts
/// the byte together. After the eighth it has the whole byte and, if that
/// asks for a read, the first bit of the register is on its side of the line.
pub proof fn lemma_chip_command_bits(chip: Chip, command: u8, n: nat)
    requires
        chip.selected,
        !chip.clock,
        chip.host_drives,
        chip.edges == 0,
        chip.command == 0,
        n <= 8,
    ensures
        ({
            let then = chip.after(write_bits_ops(command, n));
            &&& then.selected
            &&& !then.clock
            &&& then.host_drives
            &&& then.edges == n
            &&& then.command == byte_of_low_bits(wire_bits(command), n)
            &&& then.incoming == chip.incoming
            &&& then.cells == chip.cells
            &&& n == 8 ==> then.command == command
            &&& n == 8 && asks_read(command) ==> then.answer == bit_at(
                chip.cells[cell_of(command)],
                0,
            )
        }),
    decreases n,
{
    if n > 0 {
        let k = (n - 1) as nat;
        let bit = bit_at(command, k as u8);
        lemma_chip_command_bits(chip, command, k);
        let before = chip.after(write_bits_ops(command, k));
        lemma_chip_concat(chip, write_bits_ops(command, k), write_bit_ops(bit));
        lemma_chip_write_bit(before, bit);
        assert(wire_bits(command)[k as int] == bit);
        if n == 8 {
            lemma_wire_round_trip(command);
        }
    }
}

/// The bits of a data byte go out behind a command that asks for a write:
/// the chip puts the byte together, and with the eighth bit stores it.
pub proof fn lemma_chip_data_bits(chip: Chip, data: u8, n: nat)
    requires
        chip.well_formed(),
        chip.selected,
        !chip.clock,
        chip.host_drives,
        chip.edges == 8,
        !asks_read(chip.command),
        chip.incoming == 0,
        n <= 8,
    ensures
        ({
            let then = chip.after(write_bits_ops(data, n));
            &&& then.well_formed()
            &&& then.selected
            &&& !then.clock
            &&& then.host_drives
            &&& then.edges == 8 + n
            &&& then.command == chip.command
            &&& then.incoming == byte_of_low_bits(wire_bits(data), n)
            &&& then.cells == if n == 8 {
                chip.cells.update(cell_of(chip.command), data)
            } else {
                chip.cells
            }
        }),
    decreases n,
{
    if n > 0 {
        let k = (n - 1) as nat;
        let bit = bit_at(data, k as u8);
        lemma_chip_data_bits(chip, data, k);
        let command = chip.command;
        assert((command >> 1u8) < 128) by (bit_vector);
        let before = chip.after(write_bits_ops(data, k));
        lemma_chip_concat(chip, write_bits_ops(data, k), write_bit_ops(bit));
        lemma_chip_write_bit(before, bit);
        assert(wire_bits(data)[k as int] == bit);
        if n == 8 {
            lemma_wire_round_trip(data);
        }
    }
}

/// A transaction opens: the chip is selected and waits for the first bit of
/// a command, with the host on the data line.
pub proof fn lemma_chip_open(chip: Chip, mode: LineMode)
    requires
        chip.idle(),
        chip.host_drives == (mode is Output),
    ensures
        ({
            let then = chip.after(open_ops(mode));
            &&& then.selected
            &&& !then.clock
            &&& then.host_drives
            &&& then.edges == 0
            &&& then.command == 0
            &&& then.incoming == 0
            &&& then.cells == chip.cells
        }),
{
    let e = Seq::<BusOp>::empty();
    let first = if mode is Input {
        seq![BusOp::Reclaim]
    } else {
        e
    };
    if mode is Input {
        lemma_chip_push(chip, e, BusOp::Reclaim);
        assert(first =~= e.push(BusOp::Reclaim));
    }
    let held = chip.after(first);
    let s1 = e.push(BusOp::Clock(false));
    let s2 = s1.push(BusOp::ChipSelect(true));
    let s3 = s2.push(BusOp::WaitMicros(SETTLE_MICROS));
    lemma_chip_push(held, e, BusOp::Clock(false));
    lemma_chip_push(held, s1, BusOp::ChipSelect(true));
    lemma_chip_push(held, s2, BusOp::WaitMicros(SETTLE_MICROS));
    lemma_chip_concat(chip, first, s3);
    assert(open_ops(mode) =~= first + s3);
}

/// A transaction closes: the chip is no longer selected and keeps what it
/// has.
pub proof fn lemma_chip_close(chip: Chip)
    requires
        chip.well_formed(),
    ensures
        ({
            let then = chip.after(close_ops());
            &&& then.idle()
            &&& then.cells == chip.cells
            &&& then.host_drives == chip.host_drives
        }),
{
    let e = Seq::<BusOp>::empty();
    let s1 = e.push(BusOp::WaitNanos(HOLD_NANOS));
    let s2 = s1.push(BusOp::ChipSelect(false));
    let s3 = s2.push(BusOp::WaitMicros(RECOVERY_MICROS));
    lemma_chip_push(chip, e, BusOp::WaitNanos(HOLD_NANOS));
    lemma_chip_push(chip, s1, BusOp::ChipSelect(false));
    lemma_chip_push(chip, s2, BusOp::WaitMicros(RECOVERY_MICROS));
    assert(close_ops() =~= s3);
}

/// A byte written from a low clock is its eight bits: the clock line is
/// first driven to where it is.
pub proof fn lemma_chip_write_byte(chip: Chip, byte: u8)
    requires
        chip.selected,
        !chip.clock,
    ensures
        chip.after(write_byte_ops(byte)) == chip.after(write_bits_ops(byte, 8)),
{
    let low = seq![BusOp::Clock(false)];
    lemma_chip_push(chip, Seq::empty(), BusOp::Clock(false));
    assert(low =~= Seq::<BusOp>::empty().push(BusOp::Clock(false)));
    lemma_chip_concat(chip, low, write_bits_ops(byte, 8));
    assert(chip.after(low) == chip);
}

/// A register write, start to end, leaves the data byte in the register
/// that the command names, every other register as it was, and the chip
/// ready for the next transaction.
pub proof fn lemma_write_stores(chip: Chip, mode: LineMode, command: u8, data: u8)
    requires
        chip.idle(),
        chip.host_drives == (mode is Output),
        !asks_read(command),
    ensures
        ({
            let then = chip.after(write_script(mode, command, data));
            &&& then.idle()
            &&& then.host_drives
            &&& then.cells == chip.cells.update(cell_of(command), data)
        }),
{
    let s1 = open_ops(mode);
    let s2 = s1 + write_byte_ops(command);
    let s3 = s2 + write_byte_ops(data);
    let c1 = chip.after(s1);
    lemma_chip_open(chip, mode);
    lemma_chip_concat(chip, s1, write_byte_ops(command));
    lemma_chip_write_byte(c1, command);
    lemma_chip_command_bits(c1, command, 8);
    let c2 = chip.after(s2);
    lemma_chip_concat(chip, s2, write_byte_ops(data));
    lemma_chip_write_byte(c2, data);
    lemma_chip_data_bits(c2, data, 8);
    let c3 = chip.after(s3);
    lemma_chip_concat(chip, s3, close_ops());
    lemma_chip_close(c3);
}

/// The levels that samples find on the line, one for each sample among the
/// operations, with the chip in this state before them.
pub open spec fn answers(chip: Chip, ops: Seq<BusOp>) -> Seq<bool>
    decreases ops.len(),
{
    if ops.len() == 0 {
        Seq::empty()
    } else if ops.last() is DataIn {
        answers(chip, ops.drop_last()).push(chip.after(ops.drop_last()).line())
    } else {
        answers(chip, ops.drop_last())
    }
}

/// One more operation adds a level only if it is a sample.
pub proof fn lemma_answers_push(chip: Chip, ops: Seq<BusOp>, op: BusOp)
    ensures
        answers(chip, ops.push(op)) == if op is DataIn {
            answers(chip, ops).push(chip.after(ops).line())
        } else {
            answers(chip, ops)
        },
{
    assert(ops.push(op).drop_last() =~= ops);
}

/// The levels found over two stretches of operations are those of the first
/// and then those of the second, which the chip meets as the first left it.
pub proof fn lemma_answers_concat(chip: Chip, a: Seq<BusOp>, b: Seq<BusOp>)
    ensures
        answers(chip, a + b) == answers(chip, a) + answers(chip.after(a), b),
    decreases b.len(),
{
    if b.len() == 0 {
        assert(a + b =~= a);
        assert(answers(chip, a) + answers(chip.after(a), b) =~= answers(chip, a));
    } else {
        assert((a + b).drop_last() =~= a + b.drop_last());
        lemma_answers_concat(chip, a, b.drop_last());
        lemma_chip_concat(chip, a, b.drop_last());
        assert(answers(chip, a + b) =~= answers(chip, a) + answers(chip.after(a), b));
    }
}

/// Operations without a sample among them find nothing on the line.
pub proof fn lemma_answers_none(chip: Chip, ops: Seq<BusOp>)
    requires
        forall|i: int| 0 <= i < ops.len() ==> !(#[trigger] ops[i] is DataIn),
    ensures
        answers(chip, ops) == Seq::<bool>::empty(),
    decreases ops.len(),
{
    if ops.len() > 0 {
        let shorter = ops.drop_last();
        assert forall|i: int| 0 <= i < shorter.len() implies !(#[trigger] shorter[i] is DataIn) by {
            assert(shorter[i] == ops[i]);
        }
        lemma_answers_none(chip, shorter);
        assert(!(ops[ops.len() - 1] is DataIn));
    }
}

/// No sample is taken while bits are written.
pub proof fn lemma_write_bits_no_sample(byte: u8, n: nat)
    ensures
        forall|i: int|
            0 <= i < write_bits_ops(byte, n).len() ==> !(#[trigger] write_bits_ops(byte, n)[i]
                is DataIn),
    decreases n,
{
    if n > 0 {
        lemma_write_bits_no_sample(byte, (n - 1) as nat);
    }
}

/// Where no line refused and every sample is what was on the line, the
/// samples in the record are what the chip put there.
pub proof fn lemma_heard_sampled(chip: Chip, log: Seq<BusEvent>)
    requires
        heard(chip, log),
        forall|i: int| 0 <= i < log.len() ==> (#[trigger] log[i]).well_formed() && !log[i].failed(),
    ensures
        sampled(log) == answers(chip, ops_of(log)),
    decreases log.len(),
{
    if log.len() > 0 {
        let before = log.drop_last();
        let ops = ops_of(log);
        assert forall|i: int| 0 <= i < before.len() implies (#[trigger] before[i]).well_formed()
            && !before[i].failed() by {
            assert(before[i] == log[i]);
        }
        lemma_heard_sampled(chip, before);
        assert(ops.drop_last() =~= ops_of(before));
        assert(ops.last() == log.last().op);
        assert(log.last() == log[log.len() - 1]);
        assert(log.last().well_formed() && !log.last().failed());
    }
}

/// One bit read: the sample finds the bit that the chip put on the line
/// when the clock last fell, and the chip puts the next one there.
pub proof fn lemma_chip_read_bit(chip: Chip, k: nat)
    requires
        chip.well_formed(),
        chip.selected,
        !chip.clock,
        !chip.host_drives,
        asks_read(chip.command),
        chip.edges == 8 + k,
        k < 8,
    ensures
        ({
            let then = chip.after(read_bit_ops());
            &&& then.well_formed()
            &&& then.selected
            &&& !then.clock
            &&& !then.host_drives
            &&& then.command == chip.command
            &&& then.cells == chip.cells
            &&& then.edges == 9 + k
            &&& k < 7 ==> then.answer == bit_at(
                chip.cells[cell_of(chip.command)],
                (k + 1) as u8,
            )
            &&& answers(chip, read_bit_ops()) == seq![chip.answer]
        }),
{
    let e = Seq::<BusOp>::empty();
    let s1 = e.push(BusOp::WaitNanos(TURNAROUND_NANOS));
    let s2 = s1.push(BusOp::Clock(true));
    let s3 = s2.push(BusOp::WaitNanos(CLOCK_HIGH_NANOS));
    let s4 = s3.push(BusOp::DataIn);
    let s5 = s4.push(BusOp::Clock(false));
    let s6 = s5.push(BusOp::WaitNanos(CLOCK_LOW_NANOS));
    lemma_chip_push(chip, e, BusOp::WaitNanos(TURNAROUND_NANOS));
    lemma_chip_push(chip, s1, BusOp::Clock(true));
    lemma_chip_push(chip, s2, BusOp::WaitNanos(CLOCK_HIGH_NANOS));
    lemma_chip_push(chip, s3, BusOp::DataIn);
    lemma_chip_push(chip, s4, BusOp::Clock(false));
    lemma_chip_push(chip, s5, BusOp::WaitNanos(CLOCK_LOW_NANOS));
    lemma_answers_push(chip, e, BusOp::WaitNanos(TURNAROUND_NANOS));
    lemma_answers_push(chip, s1, BusOp::Clock(true));
    lemma_answers_push(chip, s2, BusOp::WaitNanos(CLOCK_HIGH_NANOS));
    lemma_answers_push(chip, s3, BusOp::DataIn);
    lemma_answers_push(chip, s4, BusOp::Clock(false));
    lemma_answers_push(chip, s5, BusOp::WaitNanos(CLOCK_LOW_NANOS));
    assert(read_bit_ops() =~= s6);
    assert(answers(chip, s6) =~= seq![chip.answer]);
}

/// The bits of a register come in, in the order of the wire.
pub proof fn lemma_chip_read_bits(chip: Chip, n: nat)
    requires
        chip.well_formed(),
        chip.selected,
        !chip.clock,
        !chip.host_drives,
        asks_read(chip.command),
        chip.edges == 8,
        chip.answer == bit_at(chip.cells[cell_of(chip.command)], 0),
        n <= 8,
    ensures
        ({
            let then = chip.after(read_bits_ops(n));
            let held = chip.cells[cell_of(chip.command)];
            &&& then.well_formed()
            &&& then.selected
            &&& !then.clock
            &&& !then.host_drives
            &&& then.command == chip.command
            &&& then.cells == chip.cells
            &&& then.edges == 8 + n
            &&& n < 8 ==> then.answer == bit_at(held, n as u8)
            &&& answers(chip, read_bits_ops(n)) == wire_bits(held).take(n as int)
        }),
    decreases n,
{
    let held = chip.cells[cell_of(chip.command)];
    if n == 0 {
        assert(answers(chip, read_bits_ops(0)) =~= wire_bits(held).take(0));
    } else {
        let k = (n - 1) as nat;
        lemma_chip_read_bits(chip, k);
        let before = chip.after(read_bits_ops(k));
        lemma_chip_concat(chip, read_bits_ops(k), read_bit_ops());
        lemma_answers_concat(chip, read_bits_ops(k), read_bit_ops());
        lemma_chip_read_bit(before, k);
        assert(wire_bits(held).take(k as int) + seq![bit_at(held, k as u8)] =~= wire_bits(
            held,
        ).take(n as int));
    }
}

/// A register read, start to end, with every sample being what the chip put
/// on the line: the samples make up the byte that the register holds, every
/// register is as it was, and the chip is ready for the next transaction.
pub proof fn lemma_read_fetches(chip: Chip, mode: LineMode, command: u8)
    requires
        chip.idle(),
        chip.host_drives == (mode is Output),
        asks_read(command),
    ensures
        ({
            let then = chip.after(read_script(mode, command));
            &&& then.idle()
            &&& then.host_drives
            &&& then.cells == chip.cells
            &&& answers(chip, read_script(mode, command)) == wire_bits(
                chip.cells[cell_of(command)],
            )
            &&& byte_of_bits(answers(chip, read_script(mode, command))) == chip.cells[cell_of(
                command,
            )]
        }),
{
    let held = chip.cells[cell_of(command)];
    let s1 = open_ops(mode);
    let s2 = s1 + write_byte_ops(command);
    let s3 = s2 + read_byte_ops();
    let c1 = chip.after(s1);
    lemma_chip_open(chip, mode);
    lemma_open_no_sample(mode);
    lemma_answers_none(chip, s1);
    // The command byte.
    lemma_chip_concat(chip, s1, write_byte_ops(command));
    lemma_answers_concat(chip, s1, write_byte_ops(command));
    lemma_chip_write_byte(c1, command);
    lemma_chip_command_bits(c1, command, 8);
    lemma_write_bits_no_sample(command, 8);
    lemma_answers_none(c1, write_byte_ops(command));
    let c2 = chip.after(s2);
    // The data byte.
    let head = seq![BusOp::Clock(false), BusOp::Release];
    let e = Seq::<BusOp>::empty();
    lemma_chip_push(c2, e, BusOp::Clock(false));
    lemma_chip_push(c2, e.push(BusOp::Clock(false)), BusOp::Release);
    lemma_answers_push(c2, e, BusOp::Clock(false));
    lemma_answers_push(c2, e.push(BusOp::Clock(false)), BusOp::Release);
    assert(head =~= e.push(BusOp::Clock(false)).push(BusOp::Release));
    let c2a = c2.after(head);
    lemma_chip_read_bits(c2a, 8);
    lemma_chip_concat(c2, head, read_bits_ops(8));
    lemma_answers_concat(c2, head, read_bits_ops(8));
    let body = head + read_bits_ops(8);
    lemma_chip_push(c2, body, BusOp::Reclaim);
    lemma_answers_push(c2, body, BusOp::Reclaim);
    assert(read_byte_ops() =~= body.push(BusOp::Reclaim));
    assert(answers(c2, read_byte_ops()) =~= wire_bits(held).take(8));
    assert(wire_bits(held).take(8) =~= wire_bits(held));
    lemma_chip_concat(chip, s2, read_byte_ops());
    lemma_answers_concat(chip, s2, read_byte_ops());
    let c3 = chip.after(s3);
    // The end.
    lemma_chip_concat(chip, s3, close_ops());
    lemma_answers_concat(chip, s3, close_ops());
    lemma_chip_close(c3);
    lemma_close_no_sample();
    lemma_answers_none(c3, close_ops());
    assert(answers(chip, read_script(mode, command)) =~= wire_bits(held));
    lemma_wire_round_trip(held);
}

/// No sample is taken while a transaction opens.
proof fn lemma_open_no_sample(mode: LineMode)
    ensures
        forall|i: int| 0 <= i < open_ops(mode).len() ==> !(#[trigger] open_ops(mode)[i] is DataIn),
{
}

/// No sample is taken while a transaction closes.
proof fn lemma_close_no_sample()
    ensures
        forall|i: int| 0 <= i < close_ops().len() ==> !(#[trigger] close_ops()[i] is DataIn),
{
}

/// A record in two parts is heard right where each part is, the second by
/// the chip as the first part left it.
pub proof fn lemma_heard_concat(chip: Chip, a: Seq<BusEvent>, b: Seq<BusEvent>)
    ensures
        heard(chip, a + b) <==> heard(chip, a) && heard(chip.after(ops_of(a)), b),
    decreases b.len(),
{
    if b.len() == 0 {
        assert(a + b =~= a);
    } else {
        let shorter = b.drop_last();
        assert((a + b).drop_last() =~= a + shorter);
        assert((a + b).last() == b.last());
        lemma_heard_concat(chip, a, shorter);
        assert(ops_of(a + shorter) =~= ops_of(a) + ops_of(shorter));
        lemma_chip_concat(chip, ops_of(a), ops_of(shorter));
    }
}

/// A register read that no line refused, from a chip that is heard right,
/// returns the byte that the register holds and changes nothing in the
/// chip.
pub proof fn lemma_read_returns_register(
    chip: Chip,
    mode: LineMode,
    command: u8,
    log: Seq<BusEvent>,
)
    requires
        chip.idle(),
        chip.host_drives == (mode is Output),
        asks_read(command),
        is_run(read_script(mode, command), log),
        fault_of(log) is None,
        heard(chip, log),
    ensures
        byte_result(log) == Ok::<u8, ReadWriteError>(chip.cells[cell_of(command)]),
        chip.after(ops_of(log)).idle(),
        chip.after(ops_of(log)).host_drives,
        chip.after(ops_of(log)).cells == chip.cells,
{
    lemma_whole_run(read_script(mode, command), log);
    lemma_read_script_len(mode, command);
    assert forall|i: int| 0 <= i < log.len() implies (#[trigger] log[i]).well_formed()
        && !log[i].failed() by {
        if i == log.len() - 1 {
            assert(log[i] == log.last());
        }
    }
    lemma_heard_sampled(chip, log);
    lemma_read_fetches(chip, mode, command);
}

/// A register write that no line refused leaves the data byte in the
/// register that the command names and every other register as it was.
pub proof fn lemma_write_reaches_register(
    chip: Chip,
    mode: LineMode,
    command: u8,
    data: u8,
    log: Seq<BusEvent>,
)
    requires
        chip.idle(),
        chip.host_drives == (mode is Output),
        !asks_read(command),
        is_run(write_script(mode, command, data), log),
        fault_of(log) is None,
    ensures
        chip.after(ops_of(log)).idle(),
        chip.after(ops_of(log)).host_drives,
        chip.after(ops_of(log)).cells == chip.cells.update(cell_of(command), data),
{
    lemma_whole_run(write_script(mode, command, data), log);
    lemma_write_stores(chip, mode, command, data);
}

/// The command bytes of the register map ask for what their names say, and
/// both commands of a register name the same cell of the chip.
pub proof fn lemma_commands_name_cells(register: Register)
    ensures
        asks_read(register.read_command()),
        !asks_read(register.write_command()),
        cell_of(register.read_command()) == cell_of(register.write_command()),
        cell_of(register.write_command()) == 0x40 + register.index(),
{
    assert((0x81u8 >> 0u8) & 1 == 1 && (0x83u8 >> 0u8) & 1 == 1 && (0x85u8 >> 0u8) & 1 == 1 && (
    0x87u8 >> 0u8) & 1 == 1 && (0x89u8 >> 0u8) & 1 == 1 && (0x8Bu8 >> 0u8) & 1 == 1 && (0x8Du8
        >> 0u8) & 1 == 1) by (bit_vector);
    assert((0x80u8 >> 0u8) & 1 == 0 && (0x82u8 >> 0u8) & 1 == 0 && (0x84u8 >> 0u8) & 1 == 0 && (
    0x86u8 >> 0u8) & 1 == 0 && (0x88u8 >> 0u8) & 1 == 0 && (0x8Au8 >> 0u8) & 1 == 0 && (0x8Cu8
        >> 0u8) & 1 == 0) by (bit_vector);
    assert(0x80u8 >> 1u8 == 0x40 && 0x81u8 >> 1u8 == 0x40 && 0x82u8 >> 1u8 == 0x41 && 0x83u8
        >> 1u8 == 0x41 && 0x84u8 >> 1u8 == 0x42 && 0x85u8 >> 1u8 == 0x42 && 0x86u8 >> 1u8 == 0x43
        && 0x87u8 >> 1u8 == 0x43) by (bit_vector);
    assert(0x88u8 >> 1u8 == 0x44 && 0x89u8 >> 1u8 == 0x44 && 0x8Au8 >> 1u8 == 0x45 && 0x8Bu8
        >> 1u8 == 0x45 && 0x8Cu8 >> 1u8 == 0x46 && 0x8Du8 >> 1u8 == 0x46) by (bit_vector);
}

} // verus!
