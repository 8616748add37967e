//! What a transaction looks like on the wires: how often the clock pulses,
//! where chip-select rises and falls, and when the data line is driven,
//! sampled and handed over.

use vstd::prelude::*;
use crate::bus::{BusEvent, BusOp, LineMode};
use crate::error::ReadWriteError;
use crate::protocol::{
    bit_at, close_ops, open_ops, read_bit_ops, read_bits_ops, read_byte_ops, read_script,
    write_bit_ops, write_bits_ops, write_byte_ops, write_script, CLOCK_HIGH_NANOS,
    CLOCK_LOW_NANOS, HOLD_NANOS, RECOVERY_MICROS, SETTLE_MICROS, SETUP_NANOS, TURNAROUND_NANOS,
};
use crate::record::{byte_result, fault_of, is_run, unit_result};

verus! {

/// The operations of a record, without their answers.
pub open spec fn ops_of(log: Seq<BusEvent>) -> Seq<BusOp> {
    log.map_values(|event: BusEvent| event.op)
}

/// The level of the clock line after these operations, if it was at `level`
/// before them.
pub open spec fn clock_after(ops: Seq<BusOp>, level: bool) -> bool
    decreases ops.len(),
{
    if ops.len() == 0 {
        level
    } else {
        match ops.last() {
            BusOp::Clock(high) => high,
            _ => clock_after(ops.drop_last(), level),
        }
    }
}

/// How often these operations take the clock from low to high, if it was at
/// `level` before them.
pub open spec fn pulses(ops: Seq<BusOp>, level: bool) -> nat
    decreases ops.len(),
{
    if ops.len() == 0 {
        0
    } else if ops.last() == BusOp::Clock(true) && !clock_after(ops.drop_last(), level) {
        pulses(ops.drop_last(), level) + 1
    } else {
        pulses(ops.drop_last(), level)
    }
}

/// The levels that these operations drive chip-select to, in order.
pub open spec fn chip_selects(ops: Seq<BusOp>) -> Seq<bool>
    decreases ops.len(),
{
    if ops.len() == 0 {
        Seq::empty()
    } else {
        match ops.last() {
            BusOp::ChipSelect(high) => chip_selects(ops.drop_last()).push(high),
            _ => chip_selects(ops.drop_last()),
        }
    }
}

/// One more operation: what it does to the clock, to the count of pulses and
/// to chip-select.
pub proof fn lemma_shape_push(ops: Seq<BusOp>, op: BusOp, level: bool)
    ensures
        clock_after(ops.push(op), level) == match op {
            BusOp::Clock(high) => high,
            _ => clock_after(ops, level),
        },
        pulses(ops.push(op), level) == pulses(ops, level) + if op == BusOp::Clock(true)
            && !clock_after(ops, level) {
            1nat
        } else {
            0nat
        },
        chip_selects(ops.push(op)) == match op {
            BusOp::ChipSelect(high) => chip_selects(ops).push(high),
            _ => chip_selects(ops),
        },
{
    assert(ops.push(op).drop_last() =~= ops);
    assert(ops.push(op).last() == op);
}

/// Two stretches of operations, one after the other: the pulses add up, with
/// the second stretch starting from the clock level that the first left.
pub proof fn lemma_shape_concat(a: Seq<BusOp>, b: Seq<BusOp>, level: bool)
    ensures
        clock_after(a + b, level) == clock_after(b, clock_after(a, level)),
        pulses(a + b, level) == pulses(a, level) + pulses(b, clock_after(a, level)),
        chip_selects(a + b) == chip_selects(a) + chip_selects(b),
    decreases b.len(),
{
    if b.len() == 0 {
        assert(a + b =~= a);
        assert(chip_selects(a) + chip_selects(b) =~= chip_selects(a));
    } else {
        let shorter = b.drop_last();
        assert(a + b =~= (a + shorter).push(b.last()));
        assert(b =~= shorter.push(b.last()));
        lemma_shape_concat(a, shorter, level);
        lemma_shape_push(a + shorter, b.last(), level);
        lemma_shape_push(shorter, b.last(), clock_after(a, level));
        assert(chip_selects(a + b) =~= chip_selects(a) + chip_selects(b));
    }
}

/// A bit written is one pulse from a low clock, back to a low clock, and
/// leaves chip-select alone.
pub proof fn lemma_write_bit_shape(bit: bool)
    ensures
        pulses(write_bit_ops(bit), false) == 1,
        !clock_after(write_bit_ops(bit), false),
        chip_selects(write_bit_ops(bit)) == Seq::<bool>::empty(),
{
    let e = Seq::<BusOp>::empty();
    let s1 = e.push(BusOp::DataOut(bit));
    let s2 = s1.push(BusOp::WaitNanos(SETUP_NANOS));
    let s3 = s2.push(BusOp::Clock(true));
    let s4 = s3.push(BusOp::WaitNanos(CLOCK_HIGH_NANOS));
    let s5 = s4.push(BusOp::Clock(false));
    let s6 = s5.push(BusOp::WaitNanos(CLOCK_LOW_NANOS));
    lemma_shape_push(e, BusOp::DataOut(bit), false);
    lemma_shape_push(s1, BusOp::WaitNanos(SETUP_NANOS), false);
    lemma_shape_push(s2, BusOp::Clock(true), false);
    lemma_shape_push(s3, BusOp::WaitNanos(CLOCK_HIGH_NANOS), false);
    lemma_shape_push(s4, BusOp::Clock(false), false);
    lemma_shape_push(s5, BusOp::WaitNanos(CLOCK_LOW_NANOS), false);
    assert(write_bit_ops(bit) =~= s6);
}

/// A bit read is one pulse from a low clock, back to a low clock, and leaves
/// chip-select alone.
pub proof fn lemma_read_bit_shape()
    ensures
        pulses(read_bit_ops(), false) == 1,
        !clock_after(read_bit_ops(), false),
        chip_selects(read_bit_ops()) == Seq::<bool>::empty(),
{
    let e = Seq::<BusOp>::empty();
    let s1 = e.push(BusOp::WaitNanos(TURNAROUND_NANOS));
    let s2 = s1.push(BusOp::Clock(true));
    let s3 = s2.push(BusOp::WaitNanos(CLOCK_HIGH_NANOS));
    let s4 = s3.push(BusOp::DataIn);
    let s5 = s4.push(BusOp::Clock(false));
    let s6 = s5.push(BusOp::WaitNanos(CLOCK_LOW_NANOS));
    lemma_shape_push(e, BusOp::WaitNanos(TURNAROUND_NANOS), false);
    lemma_shape_push(s1, BusOp::Clock(true), false);
    lemma_shape_push(s2, BusOp::WaitNanos(CLOCK_HIGH_NANOS), false);
    lemma_shape_push(s3, BusOp::DataIn, false);
    lemma_shape_push(s4, BusOp::Clock(false), false);
    lemma_shape_push(s5, BusOp::WaitNanos(CLOCK_LOW_NANOS), false);
    assert(read_bit_ops() =~= s6);
}

/// `n` bits written are `n` pulses.
pub proof fn lemma_write_bits_shape(byte: u8, n: nat)
    ensures
        pulses(write_bits_ops(byte, n), false) == n,
        !clock_after(write_bits_ops(byte, n), false),
        chip_selects(write_bits_ops(byte, n)) == Seq::<bool>::empty(),
    decreases n,
{
    if n > 0 {
        let bit = bit_at(byte, (n - 1) as u8);
        lemma_write_bits_shape(byte, (n - 1) as nat);
        lemma_write_bit_shape(bit);
        lemma_shape_concat(write_bits_ops(byte, (n - 1) as nat), write_bit_ops(bit), false);
    }
}

/// `n` bits read are `n` pulses.
pub proof fn lemma_read_bits_shape(n: nat)
    ensures
        pulses(read_bits_ops(n), false) == n,
        !clock_after(read_bits_ops(n), false),
        chip_selects(read_bits_ops(n)) == Seq::<bool>::empty(),
    decreases n,
{
    if n > 0 {
        lemma_read_bits_shape((n - 1) as nat);
        lemma_read_bit_shape();
        lemma_shape_concat(read_bits_ops((n - 1) as nat), read_bit_ops(), false);
    }
}

/// A byte written is eight pulses, wherever the clock was, and leaves
/// chip-select alone.
pub proof fn lemma_write_byte_shape(byte: u8, level: bool)
    ensures
        pulses(write_byte_ops(byte), level) == 8,
        !clock_after(write_byte_ops(byte), level),
        chip_selects(write_byte_ops(byte)) == Seq::<bool>::empty(),
{
    let low = seq![BusOp::Clock(false)];
    lemma_shape_push(Seq::empty(), BusOp::Clock(false), level);
    assert(low =~= Seq::<BusOp>::empty().push(BusOp::Clock(false)));
    lemma_write_bits_shape(byte, 8);
    lemma_shape_concat(low, write_bits_ops(byte, 8), level);
}

/// A byte read is eight pulses, wherever the clock was, and leaves
/// chip-select alone.
pub proof fn lemma_read_byte_shape(level: bool)
    ensures
        pulses(read_byte_ops(), level) == 8,
        !clock_after(read_byte_ops(), level),
        chip_selects(read_byte_ops()) == Seq::<bool>::empty(),
{
    let e = Seq::<BusOp>::empty();
    let head = seq![BusOp::Clock(false), BusOp::Release];
    lemma_shape_push(e, BusOp::Clock(false), level);
    lemma_shape_push(e.push(BusOp::Clock(false)), BusOp::Release, level);
    assert(head =~= e.push(BusOp::Clock(false)).push(BusOp::Release));
    lemma_read_bits_shape(8);
    lemma_shape_concat(head, read_bits_ops(8), level);
    lemma_shape_push(head + read_bits_ops(8), BusOp::Reclaim, level);
    assert(read_byte_ops() =~= (head + read_bits_ops(8)).push(BusOp::Reclaim));
}

/// Opening a transaction raises chip-select, once, over a low clock and
/// without a pulse.
pub proof fn lemma_open_shape(mode: LineMode, level: bool)
    ensures
        pulses(open_ops(mode), level) == 0,
        !clock_after(open_ops(mode), level),
        chip_selects(open_ops(mode)) == seq![true],
{
    let e = Seq::<BusOp>::empty();
    let first = if mode is Input {
        seq![BusOp::Reclaim]
    } else {
        e
    };
    if mode is Input {
        lemma_shape_push(e, BusOp::Reclaim, level);
        assert(first =~= e.push(BusOp::Reclaim));
    }
    let s1 = e.push(BusOp::Clock(false));
    let s2 = s1.push(BusOp::ChipSelect(true));
    let s3 = s2.push(BusOp::WaitMicros(SETTLE_MICROS));
    lemma_shape_push(e, BusOp::Clock(false), clock_after(first, level));
    lemma_shape_push(s1, BusOp::ChipSelect(true), clock_after(first, level));
    lemma_shape_push(s2, BusOp::WaitMicros(SETTLE_MICROS), clock_after(first, level));
    lemma_shape_concat(first, s3, level);
    assert(open_ops(mode) =~= first + s3);
    assert(chip_selects(first) + chip_selects(s3) =~= seq![true]);
}

/// Closing a transaction lowers chip-select, once, without a pulse, and only
/// a wait follows.
pub proof fn lemma_close_shape()
    ensures
        pulses(close_ops(), false) == 0,
        !clock_after(close_ops(), false),
        chip_selects(close_ops()) == seq![false],
        close_ops().len() == 3,
        close_ops()[1] == BusOp::ChipSelect(false),
        close_ops()[2] is WaitMicros,
{
    let e = Seq::<BusOp>::empty();
    let s1 = e.push(BusOp::WaitNanos(HOLD_NANOS));
    let s2 = s1.push(BusOp::ChipSelect(false));
    lemma_shape_push(e, BusOp::WaitNanos(HOLD_NANOS), false);
    lemma_shape_push(s1, BusOp::ChipSelect(false), false);
    lemma_shape_push(s2, BusOp::WaitMicros(RECOVERY_MICROS), false);
    assert(close_ops() =~= s2.push(BusOp::WaitMicros(RECOVERY_MICROS)));
    assert(chip_selects(close_ops()) =~= seq![false]);
}

/// The shape of a register write on the wires, wherever the clock was
/// before: chip-select rises without a pulse, eight pulses carry the command
/// byte, eight more the data byte, then chip-select falls, without a pulse
/// and with only a wait behind it. Chip-select is driven twice in all, high
/// and then low.
pub proof fn lemma_write_frame(mode: LineMode, addr: u8, data: u8, level: bool)
    ensures
        write_script(mode, addr, data) == open_ops(mode) + write_byte_ops(addr) + write_byte_ops(
            data,
        ) + close_ops(),
        pulses(open_ops(mode), level) == 0,
        chip_selects(open_ops(mode)) == seq![true],
        pulses(write_byte_ops(addr), false) == 8,
        chip_selects(write_byte_ops(addr)) == Seq::<bool>::empty(),
        pulses(write_byte_ops(data), false) == 8,
        chip_selects(write_byte_ops(data)) == Seq::<bool>::empty(),
        pulses(close_ops(), false) == 0,
        chip_selects(close_ops()) == seq![false],
        close_ops().len() == 3,
        close_ops()[1] == BusOp::ChipSelect(false),
        close_ops()[2] is WaitMicros,
        pulses(write_script(mode, addr, data), level) == 16,
        chip_selects(write_script(mode, addr, data)) == seq![true, false],
{
    let s1 = open_ops(mode);
    let s2 = s1 + write_byte_ops(addr);
    let s3 = s2 + write_byte_ops(data);
    lemma_open_shape(mode, level);
    lemma_write_byte_shape(addr, false);
    lemma_write_byte_shape(data, false);
    lemma_close_shape();
    lemma_shape_concat(s1, write_byte_ops(addr), level);
    lemma_shape_concat(s2, write_byte_ops(data), level);
    lemma_shape_concat(s3, close_ops(), level);
    assert(chip_selects(s3 + close_ops()) =~= seq![true, false]);
}

/// The shape of a register read on the wires, wherever the clock was before:
/// chip-select rises without a pulse, eight pulses carry the command byte,
/// eight more bring the data byte, then chip-select falls, without a pulse
/// and with only a wait behind it. Chip-select is driven twice in all, high
/// and then low.
pub proof fn lemma_read_frame(mode: LineMode, addr: u8, level: bool)
    ensures
        read_script(mode, addr) == open_ops(mode) + write_byte_ops(addr) + read_byte_ops()
            + close_ops(),
        pulses(open_ops(mode), level) == 0,
        chip_selects(open_ops(mode)) == seq![true],
        pulses(write_byte_ops(addr), false) == 8,
        chip_selects(write_byte_ops(addr)) == Seq::<bool>::empty(),
        pulses(read_byte_ops(), false) == 8,
        chip_selects(read_byte_ops()) == Seq::<bool>::empty(),
        pulses(close_ops(), false) == 0,
        chip_selects(close_ops()) == seq![false],
        close_ops().len() == 3,
        close_ops()[1] == BusOp::ChipSelect(false),
        close_ops()[2] is WaitMicros,
        pulses(read_script(mode, addr), level) == 16,
        chip_selects(read_script(mode, addr)) == seq![true, false],
{
    let s1 = open_ops(mode);
    let s2 = s1 + write_byte_ops(addr);
    let s3 = s2 + read_byte_ops();
    lemma_open_shape(mode, level);
    lemma_write_byte_shape(addr, false);
    lemma_read_byte_shape(false);
    lemma_close_shape();
    lemma_shape_concat(s1, write_byte_ops(addr), level);
    lemma_shape_concat(s2, read_byte_ops(), level);
    lemma_shape_concat(s3, close_ops(), level);
    assert(chip_selects(s3 + close_ops()) =~= seq![true, false]);
}

/// A run that no line refused did every operation of its script, in order.
pub proof fn lemma_whole_run(script: Seq<BusOp>, log: Seq<BusEvent>)
    requires
        is_run(script, log),
        fault_of(log) is None,
    ensures
        ops_of(log) == script,
{
    assert(ops_of(log) =~= script);
}

/// A run did the first operations of its script, as many as it has events.
pub proof fn lemma_run_ops(script: Seq<BusOp>, log: Seq<BusEvent>)
    requires
        is_run(script, log),
    ensures
        ops_of(log) == script.take(log.len() as int),
{
    assert(ops_of(log) =~= script.take(log.len() as int));
}

/// A transaction in which chip-select refuses to rise ends there, with the
/// error that names chip-select, before the clock has pulsed once and with
/// the data line neither driven nor sampled.
proof fn lemma_select_refused(
    mode: LineMode,
    rest: Seq<BusOp>,
    log: Seq<BusEvent>,
    level: bool,
)
    requires
        is_run(open_ops(mode) + rest, log),
        chip_selects(rest) == seq![false],
        log.len() > 0,
        log.last().failed(),
        log.last().op == BusOp::ChipSelect(true),
    ensures
        fault_of(log) == Some(ReadWriteError::ChipSelectError),
        pulses(ops_of(log), level) == 0,
        drives(ops_of(log)) == 0,
        samples(ops_of(log)) == 0,
        log.len() <= open_ops(mode).len(),
{
    let opening = open_ops(mode);
    let script = opening + rest;
    let n = log.len() as int;
    let k = opening.len() as int;
    lemma_run_ops(script, log);
    lemma_open_shape(mode, level);
    let done = script.take(n);
    assert(done.last() == BusOp::ChipSelect(true));
    assert(done =~= done.drop_last().push(BusOp::ChipSelect(true)));
    lemma_shape_push(done.drop_last(), BusOp::ChipSelect(true), level);
    if n > k {
        let more = done.skip(k);
        assert(done =~= opening + more);
        assert(rest =~= more + rest.skip(n - k));
        assert(more.last() == BusOp::ChipSelect(true));
        assert(more =~= more.drop_last().push(BusOp::ChipSelect(true)));
        lemma_shape_push(more.drop_last(), BusOp::ChipSelect(true), level);
        lemma_shape_concat(more, rest.skip(n - k), level);
        let seen = chip_selects(more);
        let all = seen + chip_selects(rest.skip(n - k));
        assert(seen.len() >= 1 && seen.last() == true);
        assert(all == chip_selects(rest));
        assert(all.len() == 1 && all[0] == false);
        assert(all[0] == seen[0]);
        assert(false);
    }
    assert(opening =~= done + opening.skip(n));
    lemma_shape_concat(done, opening.skip(n), level);
    lemma_open_data(mode);
    lemma_data_concat(done, opening.skip(n));
}

/// If chip-select refuses to rise when a register is read, the read returns
/// the error that names chip-select, the clock has not pulsed, and the data
/// line was neither driven nor sampled.
pub proof fn lemma_read_select_refused(mode: LineMode, addr: u8, log: Seq<BusEvent>, level: bool)
    requires
        is_run(read_script(mode, addr), log),
        log.len() > 0,
        log.last().failed(),
        log.last().op == BusOp::ChipSelect(true),
    ensures
        fault_of(log) == Some(ReadWriteError::ChipSelectError),
        byte_result(log) == Err::<u8, ReadWriteError>(
            ReadWriteError::ChipSelectError,
        ),
        pulses(ops_of(log), level) == 0,
        drives(ops_of(log)) == 0,
        samples(ops_of(log)) == 0,
{
    let rest = write_byte_ops(addr) + read_byte_ops() + close_ops();
    assert(read_script(mode, addr) =~= open_ops(mode) + rest);
    lemma_write_byte_shape(addr, false);
    lemma_read_byte_shape(false);
    lemma_close_shape();
    lemma_shape_concat(write_byte_ops(addr), read_byte_ops(), false);
    lemma_shape_concat(write_byte_ops(addr) + read_byte_ops(), close_ops(), false);
    assert(chip_selects(rest) =~= seq![false]);
    lemma_select_refused(mode, rest, log, level);
}

/// If chip-select refuses to rise when a register is written, the write
/// returns the error that names chip-select, the clock has not pulsed, and
/// the data line was neither driven nor sampled.
pub proof fn lemma_write_select_refused(
    mode: LineMode,
    addr: u8,
    data: u8,
    log: Seq<BusEvent>,
    level: bool,
)
    requires
        is_run(write_script(mode, addr, data), log),
        log.len() > 0,
        log.last().failed(),
        log.last().op == BusOp::ChipSelect(true),
    ensures
        fault_of(log) == Some(ReadWriteError::ChipSelectError),
        unit_result(log) == Err::<(), ReadWriteError>(
            ReadWriteError::ChipSelectError,
        ),
        pulses(ops_of(log), level) == 0,
        drives(ops_of(log)) == 0,
        samples(ops_of(log)) == 0,
{
    let rest = write_byte_ops(addr) + write_byte_ops(data) + close_ops();
    assert(write_script(mode, addr, data) =~= open_ops(mode) + rest);
    lemma_write_byte_shape(addr, false);
    lemma_write_byte_shape(data, false);
    lemma_close_shape();
    lemma_shape_concat(write_byte_ops(addr), write_byte_ops(data), false);
    lemma_shape_concat(write_byte_ops(addr) + write_byte_ops(data), close_ops(), false);
    assert(chip_selects(rest) =~= seq![false]);
    lemma_select_refused(mode, rest, log, level);
}

/// How often these operations drive the data line.
pub open spec fn drives(ops: Seq<BusOp>) -> nat
    decreases ops.len(),
{
    if ops.len() == 0 {
        0
    } else if ops.last() is DataOut {
        drives(ops.drop_last()) + 1
    } else {
        drives(ops.drop_last())
    }
}

/// How often these operations sample the data line.
pub open spec fn samples(ops: Seq<BusOp>) -> nat
    decreases ops.len(),
{
    if ops.len() == 0 {
        0
    } else if ops.last() is DataIn {
        samples(ops.drop_last()) + 1
    } else {
        samples(ops.drop_last())
    }
}

/// To whom these operations hand the data line, in order.
pub open spec fn hands(ops: Seq<BusOp>) -> Seq<LineMode>
    decreases ops.len(),
{
    if ops.len() == 0 {
        Seq::empty()
    } else {
        match ops.last() {
            BusOp::Release => hands(ops.drop_last()).push(LineMode::Input),
            BusOp::Reclaim => hands(ops.drop_last()).push(LineMode::Output),
            _ => hands(ops.drop_last()),
        }
    }
}

/// One more operation: what it does to the data line.
pub proof fn lemma_data_push(ops: Seq<BusOp>, op: BusOp)
    ensures
        drives(ops.push(op)) == drives(ops) + if op is DataOut {
            1nat
        } else {
            0nat
        },
        samples(ops.push(op)) == samples(ops) + if op is DataIn {
            1nat
        } else {
            0nat
        },
        hands(ops.push(op)) == match op {
            BusOp::Release => hands(ops).push(LineMode::Input),
            BusOp::Reclaim => hands(ops).push(LineMode::Output),
            _ => hands(ops),
        },
{
    assert(ops.push(op).drop_last() =~= ops);
    assert(ops.push(op).last() == op);
}

/// Two stretches of operations, one after the other: what they do to the
/// data line adds up.
pub proof fn lemma_data_concat(a: Seq<BusOp>, b: Seq<BusOp>)
    ensures
        drives(a + b) == drives(a) + drives(b),
        samples(a + b) == samples(a) + samples(b),
        hands(a + b) == hands(a) + hands(b),
    decreases b.len(),
{
    if b.len() == 0 {
        assert(a + b =~= a);
        assert(hands(a) + hands(b) =~= hands(a));
    } else {
        let shorter = b.drop_last();
        assert(a + b =~= (a + shorter).push(b.last()));
        assert(b =~= shorter.push(b.last()));
        lemma_data_concat(a, shorter);
        lemma_data_push(a + shorter, b.last());
        lemma_data_push(shorter, b.last());
        assert(hands(a + b) =~= hands(a) + hands(b));
    }
}

/// A bit written drives the data line once and never samples it.
pub proof fn lemma_write_bit_data(bit: bool)
    ensures
        drives(write_bit_ops(bit)) == 1,
        samples(write_bit_ops(bit)) == 0,
        hands(write_bit_ops(bit)) == Seq::<LineMode>::empty(),
{
    let e = Seq::<BusOp>::empty();
    let s1 = e.push(BusOp::DataOut(bit));
    let s2 = s1.push(BusOp::WaitNanos(SETUP_NANOS));
    let s3 = s2.push(BusOp::Clock(true));
    let s4 = s3.push(BusOp::WaitNanos(CLOCK_HIGH_NANOS));
    let s5 = s4.push(BusOp::Clock(false));
    let s6 = s5.push(BusOp::WaitNanos(CLOCK_LOW_NANOS));
    lemma_data_push(e, BusOp::DataOut(bit));
    lemma_data_push(s1, BusOp::WaitNanos(SETUP_NANOS));
    lemma_data_push(s2, BusOp::Clock(true));
    lemma_data_push(s3, BusOp::WaitNanos(CLOCK_HIGH_NANOS));
    lemma_data_push(s4, BusOp::Clock(false));
    lemma_data_push(s5, BusOp::WaitNanos(CLOCK_LOW_NANOS));
    assert(write_bit_ops(bit) =~= s6);
}

/// A bit read samples the data line once, within its one pulse, and never
/// drives it.
pub proof fn lemma_read_bit_data()
    ensures
        drives(read_bit_ops()) == 0,
        samples(read_bit_ops()) == 1,
        hands(read_bit_ops()) == Seq::<LineMode>::empty(),
        read_bit_ops().len() == 6,
        read_bit_ops()[1] == BusOp::Clock(true),
        read_bit_ops()[2] is WaitNanos,
        read_bit_ops()[3] == BusOp::DataIn,
        read_bit_ops()[4] == BusOp::Clock(false),
{
    let e = Seq::<BusOp>::empty();
    let s1 = e.push(BusOp::WaitNanos(TURNAROUND_NANOS));
    let s2 = s1.push(BusOp::Clock(true));
    let s3 = s2.push(BusOp::WaitNanos(CLOCK_HIGH_NANOS));
    let s4 = s3.push(BusOp::DataIn);
    let s5 = s4.push(BusOp::Clock(false));
    let s6 = s5.push(BusOp::WaitNanos(CLOCK_LOW_NANOS));
    lemma_data_push(e, BusOp::WaitNanos(TURNAROUND_NANOS));
    lemma_data_push(s1, BusOp::Clock(true));
    lemma_data_push(s2, BusOp::WaitNanos(CLOCK_HIGH_NANOS));
    lemma_data_push(s3, BusOp::DataIn);
    lemma_data_push(s4, BusOp::Clock(false));
    lemma_data_push(s5, BusOp::WaitNanos(CLOCK_LOW_NANOS));
    assert(read_bit_ops() =~= s6);
}

/// `n` bits written drive the data line `n` times.
pub proof fn lemma_write_bits_data(byte: u8, n: nat)
    ensures
        drives(write_bits_ops(byte, n)) == n,
        samples(write_bits_ops(byte, n)) == 0,
        hands(write_bits_ops(byte, n)) == Seq::<LineMode>::empty(),
    decreases n,
{
    if n > 0 {
        let bit = bit_at(byte, (n - 1) as u8);
        lemma_write_bits_data(byte, (n - 1) as nat);
        lemma_write_bit_data(bit);
        lemma_data_concat(write_bits_ops(byte, (n - 1) as nat), write_bit_ops(bit));
    }
}

/// `n` bits read sample the data line `n` times.
pub proof fn lemma_read_bits_data(n: nat)
    ensures
        drives(read_bits_ops(n)) == 0,
        samples(read_bits_ops(n)) == n,
        hands(read_bits_ops(n)) == Seq::<LineMode>::empty(),
    decreases n,
{
    if n > 0 {
        lemma_read_bits_data((n - 1) as nat);
        lemma_read_bit_data();
        lemma_data_concat(read_bits_ops((n - 1) as nat), read_bit_ops());
    }
}

/// A byte written drives the data line eight times, with the host holding
/// it throughout.
pub proof fn lemma_write_byte_data(byte: u8)
    ensures
        drives(write_byte_ops(byte)) == 8,
        samples(write_byte_ops(byte)) == 0,
        hands(write_byte_ops(byte)) == Seq::<LineMode>::empty(),
{
    let low = seq![BusOp::Clock(false)];
    lemma_data_push(Seq::empty(), BusOp::Clock(false));
    assert(low =~= Seq::<BusOp>::empty().push(BusOp::Clock(false)));
    lemma_write_bits_data(byte, 8);
    lemma_data_concat(low, write_bits_ops(byte, 8));
    assert(hands(low) + hands(write_bits_ops(byte, 8)) =~= Seq::<LineMode>::empty());
}

/// A byte read hands the data line to the chip, samples it eight times
/// without driving it, and takes it back.
pub proof fn lemma_read_byte_data()
    ensures
        drives(read_byte_ops()) == 0,
        samples(read_byte_ops()) == 8,
        hands(read_byte_ops()) == seq![LineMode::Input, LineMode::Output],
{
    let e = Seq::<BusOp>::empty();
    let head = seq![BusOp::Clock(false), BusOp::Release];
    lemma_data_push(e, BusOp::Clock(false));
    lemma_data_push(e.push(BusOp::Clock(false)), BusOp::Release);
    assert(head =~= e.push(BusOp::Clock(false)).push(BusOp::Release));
    lemma_read_bits_data(8);
    lemma_data_concat(head, read_bits_ops(8));
    lemma_data_push(head + read_bits_ops(8), BusOp::Reclaim);
    assert(read_byte_ops() =~= (head + read_bits_ops(8)).push(BusOp::Reclaim));
    assert(hands(read_byte_ops()) =~= seq![LineMode::Input, LineMode::Output]);
}

/// Opening a transaction neither drives nor samples the data line, and
/// takes it back only where the chip was left with it.
pub proof fn lemma_open_data(mode: LineMode)
    ensures
        drives(open_ops(mode)) == 0,
        samples(open_ops(mode)) == 0,
        hands(open_ops(mode)) == if mode is Input {
            seq![LineMode::Output]
        } else {
            Seq::<LineMode>::empty()
        },
{
    let e = Seq::<BusOp>::empty();
    let first = if mode is Input {
        seq![BusOp::Reclaim]
    } else {
        e
    };
    if mode is Input {
        lemma_data_push(e, BusOp::Reclaim);
        assert(first =~= e.push(BusOp::Reclaim));
    }
    let s1 = e.push(BusOp::Clock(false));
    let s2 = s1.push(BusOp::ChipSelect(true));
    let s3 = s2.push(BusOp::WaitMicros(SETTLE_MICROS));
    lemma_data_push(e, BusOp::Clock(false));
    lemma_data_push(s1, BusOp::ChipSelect(true));
    lemma_data_push(s2, BusOp::WaitMicros(SETTLE_MICROS));
    lemma_data_concat(first, s3);
    assert(open_ops(mode) =~= first + s3);
    assert(hands(first) + hands(s3) =~= hands(first));
    if mode is Input {
        assert(hands(first) =~= seq![LineMode::Output]);
    }
}

/// Closing a transaction leaves the data line alone.
pub proof fn lemma_close_data()
    ensures
        drives(close_ops()) == 0,
        samples(close_ops()) == 0,
        hands(close_ops()) == Seq::<LineMode>::empty(),
{
    let e = Seq::<BusOp>::empty();
    let s1 = e.push(BusOp::WaitNanos(HOLD_NANOS));
    let s2 = s1.push(BusOp::ChipSelect(false));
    let s3 = s2.push(BusOp::WaitMicros(RECOVERY_MICROS));
    lemma_data_push(e, BusOp::WaitNanos(HOLD_NANOS));
    lemma_data_push(s1, BusOp::ChipSelect(false));
    lemma_data_push(s2, BusOp::WaitMicros(RECOVERY_MICROS));
    assert(close_ops() =~= s3);
}

/// The data line in a register write: driven once for each of the sixteen
/// bits, never sampled, and never handed to the chip.
pub proof fn lemma_write_frame_data(mode: LineMode, addr: u8, data: u8)
    ensures
        drives(write_byte_ops(addr)) == 8,
        drives(write_byte_ops(data)) == 8,
        drives(write_script(mode, addr, data)) == 16,
        samples(write_script(mode, addr, data)) == 0,
        hands(write_script(mode, addr, data)) == hands(open_ops(mode)),
        forall|i: int|
            0 <= i < hands(write_script(mode, addr, data)).len() ==> hands(
                write_script(mode, addr, data),
            )[i] is Output,
{
    let s1 = open_ops(mode);
    let s2 = s1 + write_byte_ops(addr);
    let s3 = s2 + write_byte_ops(data);
    lemma_open_data(mode);
    lemma_write_byte_data(addr);
    lemma_write_byte_data(data);
    lemma_close_data();
    lemma_data_concat(s1, write_byte_ops(addr));
    lemma_data_concat(s2, write_byte_ops(data));
    lemma_data_concat(s3, close_ops());
    assert(hands(write_script(mode, addr, data)) =~= hands(s1));
}

/// The data line in a register read: driven once for each bit of the
/// command byte, then handed to the chip, sampled once in each of the eight
/// pulses that follow, and taken back.
pub proof fn lemma_read_frame_data(mode: LineMode, addr: u8)
    ensures
        drives(write_byte_ops(addr)) == 8,
        samples(write_byte_ops(addr)) == 0,
        drives(read_byte_ops()) == 0,
        samples(read_byte_ops()) == 8,
        hands(read_byte_ops()) == seq![LineMode::Input, LineMode::Output],
        pulses(read_bit_ops(), false) == 1 && samples(read_bit_ops()) == 1,
        drives(read_script(mode, addr)) == 8,
        samples(read_script(mode, addr)) == 8,
        hands(read_script(mode, addr)) == hands(open_ops(mode)) + seq![
            LineMode::Input,
            LineMode::Output,
        ],
{
    let s1 = open_ops(mode);
    let s2 = s1 + write_byte_ops(addr);
    let s3 = s2 + read_byte_ops();
    lemma_open_data(mode);
    lemma_write_byte_data(addr);
    lemma_read_byte_data();
    lemma_read_bit_data();
    lemma_read_bit_shape();
    lemma_close_data();
    lemma_data_concat(s1, write_byte_ops(addr));
    lemma_data_concat(s2, read_byte_ops());
    lemma_data_concat(s3, close_ops());
    assert(hands(read_script(mode, addr)) =~= hands(s1) + seq![LineMode::Input, LineMode::Output]);
}

/// What a register read that no line refused has done on the wires:
/// chip-select high and then low, sixteen clock pulses between, the data
/// line driven for the eight bits of the command and sampled for the eight
/// bits of the data.
pub proof fn lemma_read_trace(mode: LineMode, addr: u8, log: Seq<BusEvent>, level: bool)
    requires
        is_run(read_script(mode, addr), log),
        fault_of(log) is None,
    ensures
        ops_of(log) == read_script(mode, addr),
        chip_selects(ops_of(log)) == seq![true, false],
        pulses(ops_of(log), level) == 16,
        drives(ops_of(log)) == 8,
        samples(ops_of(log)) == 8,
{
    lemma_whole_run(read_script(mode, addr), log);
    lemma_read_frame(mode, addr, level);
    lemma_read_frame_data(mode, addr);
}

/// What a register write that no line refused has done on the wires:
/// chip-select high and then low, sixteen clock pulses between, the data
/// line driven for each of the sixteen bits and never sampled.
pub proof fn lemma_write_trace(
    mode: LineMode,
    addr: u8,
    data: u8,
    log: Seq<BusEvent>,
    level: bool,
)
    requires
        is_run(write_script(mode, addr, data), log),
        fault_of(log) is None,
    ensures
        ops_of(log) == write_script(mode, addr, data),
        chip_selects(ops_of(log)) == seq![true, false],
        pulses(ops_of(log), level) == 16,
        drives(ops_of(log)) == 16,
        samples(ops_of(log)) == 0,
{
    lemma_whole_run(write_script(mode, addr, data), log);
    lemma_write_frame(mode, addr, data, level);
    lemma_write_frame_data(mode, addr, data);
}

} // verus!
