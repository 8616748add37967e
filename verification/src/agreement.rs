//! The driver and the chip, end to end: what one operation of the handle
//! leaves in the chip, and what the next one then brings back.

use vstd::prelude::*;
use crate::bus::{BusEvent, BusOp, LineMode};
use crate::chip::{
    asks_read, cell_of, heard, lemma_chip_concat, lemma_commands_name_cells, lemma_heard_concat,
    lemma_read_returns_register, lemma_write_reaches_register, Chip,
};
use crate::driver::Ds1302;
use crate::error::ReadWriteError;
use crate::protocol::{lemma_read_script_len, lemma_write_script_len, read_script, write_script};
use crate::record::{byte_result, fault_of, is_run, mode_after, mode_step, unit_result};
use crate::registers::{
    halt_changed, lemma_halt_changed, lemma_seconds_changed, running_value, seconds_changed,
    seconds_value, Register,
};
use crate::shape::ops_of;

verus! {

/// The handle's note of who holds the data line and the line itself change
/// hands together.
pub proof fn lemma_mode_follows_line(chip: Chip, mode: LineMode, log: Seq<BusEvent>)
    requires
        chip.host_drives == (mode is Output),
    ensures
        chip.after(ops_of(log)).host_drives == (mode_after(mode, log) is Output),
    decreases log.len(),
{
    if log.len() > 0 {
        let shorter = log.drop_last();
        lemma_mode_follows_line(chip, mode, shorter);
        assert(ops_of(log).drop_last() =~= ops_of(shorter));
        assert(ops_of(log).last() == log.last().op);
    }
}

/// A register written and then read, no line refusing and the chip heard
/// right: the read returns the byte that was written.
pub proof fn lemma_write_then_read<SCLK, IO, CE>(
    chip: Chip,
    first: Ds1302<SCLK, IO, CE>,
    second: Ds1302<SCLK, IO, CE>,
    third: Ds1302<SCLK, IO, CE>,
    register: Register,
    data: u8,
)
    requires
        chip.idle(),
        chip.host_drives == (first.mode() is Output),
        second.ran(&first, write_script(first.mode(), register.write_command(), data)),
        fault_of(second.issued_since(&first)) is None,
        third.ran(&second, read_script(second.mode(), register.read_command())),
        fault_of(third.issued_since(&second)) is None,
        heard(chip.after(ops_of(second.issued_since(&first))), third.issued_since(&second)),
    ensures
        byte_result(third.issued_since(&second)) == Ok::<u8, ReadWriteError>(data),
{
    let written = second.issued_since(&first);
    let between = chip.after(ops_of(written));
    lemma_commands_name_cells(register);
    lemma_write_reaches_register(chip, first.mode(), register.write_command(), data, written);
    lemma_mode_follows_line(chip, first.mode(), written);
    lemma_read_returns_register(
        between,
        second.mode(),
        register.read_command(),
        third.issued_since(&second),
    );
}

/// What a read-modify-write of the seconds register that went through
/// leaves in the chip: the update of the byte that was there, in the
/// seconds register and nowhere else.
pub proof fn lemma_update_reaches_register<SCLK, IO, CE>(
    chip: Chip,
    before: Ds1302<SCLK, IO, CE>,
    after: Ds1302<SCLK, IO, CE>,
    update: spec_fn(u8) -> u8,
)
    requires
        chip.idle(),
        chip.host_drives == (before.mode() is Output),
        after.ran_update(&before, update),
        after.update_result(&before) is Ok,
        heard(chip, after.issued_since(&before)),
    ensures
        ({
            let cell = cell_of(Register::Seconds.write_command());
            let then = chip.after(ops_of(after.issued_since(&before)));
            &&& then.idle()
            &&& then.host_drives
            &&& after.mode() is Output
            &&& then.cells == chip.cells.update(cell, update(chip.cells[cell]))
        }),
{
    let fetch_command = Register::Seconds.read_command();
    let store_command = Register::Seconds.write_command();
    let fetch = read_script(before.mode(), fetch_command);
    let issued = after.issued_since(&before);
    let fetched = after.first_part(&before, fetch);
    let stored = after.second_part(&before, fetch);
    lemma_commands_name_cells(Register::Seconds);
    lemma_read_script_len(before.mode(), fetch_command);
    let raw = byte_result(fetched)->Ok_0;
    lemma_write_script_len(LineMode::Output, store_command, update(raw));
    assert(issued =~= fetched + stored);
    lemma_heard_concat(chip, fetched, stored);
    lemma_read_returns_register(chip, before.mode(), fetch_command, fetched);
    let between = chip.after(ops_of(fetched));
    lemma_write_reaches_register(between, LineMode::Output, store_command, update(raw), stored);
    assert(ops_of(issued) =~= ops_of(fetched) + ops_of(stored));
    lemma_chip_concat(chip, ops_of(fetched), ops_of(stored));
    lemma_mode_follows_line(chip, before.mode(), issued);
}

/// The oscillator started or stopped, and then asked whether it runs, no
/// line refusing and the chip heard right: the answer is what was set. The
/// seconds register has its low seven bits as before, and no other register
/// has changed.
pub proof fn lemma_set_running_then_is_running<SCLK, IO, CE>(
    chip: Chip,
    first: Ds1302<SCLK, IO, CE>,
    second: Ds1302<SCLK, IO, CE>,
    third: Ds1302<SCLK, IO, CE>,
    is_running: bool,
)
    requires
        chip.idle(),
        chip.host_drives == (first.mode() is Output),
        second.ran_update(&first, |raw: u8| halt_changed(raw, is_running)),
        second.update_result(&first) is Ok,
        heard(chip, second.issued_since(&first)),
        third.ran(&second, read_script(second.mode(), Register::Seconds.read_command())),
        fault_of(third.issued_since(&second)) is None,
        heard(chip.after(ops_of(second.issued_since(&first))), third.issued_since(&second)),
    ensures
        ({
            let cell = cell_of(Register::Seconds.write_command());
            let then = chip.after(ops_of(second.issued_since(&first)));
            &&& byte_result(third.issued_since(&second)) matches Ok(raw)
            &&& running_value(raw) == is_running
            &&& raw % 0x80 == chip.cells[cell] % 0x80
            &&& seconds_value(raw) == seconds_value(chip.cells[cell])
            &&& then.cells == chip.cells.update(cell, raw)
        }),
{
    let cell = cell_of(Register::Seconds.write_command());
    let update = |raw: u8| halt_changed(raw, is_running);
    lemma_commands_name_cells(Register::Seconds);
    lemma_update_reaches_register(chip, first, second, update);
    let then = chip.after(ops_of(second.issued_since(&first)));
    lemma_read_returns_register(
        then,
        second.mode(),
        Register::Seconds.read_command(),
        third.issued_since(&second),
    );
    lemma_halt_changed(chip.cells[cell], is_running);
}

/// The seconds set, and then the seconds register read, no line refusing and
/// the chip heard right: the oscillator runs or stands as before, and the
/// seconds are those set, for every count of seconds that a clock shows.
pub proof fn lemma_set_seconds_then_read<SCLK, IO, CE>(
    chip: Chip,
    first: Ds1302<SCLK, IO, CE>,
    second: Ds1302<SCLK, IO, CE>,
    third: Ds1302<SCLK, IO, CE>,
    seconds: u8,
)
    requires
        chip.idle(),
        chip.host_drives == (first.mode() is Output),
        second.ran_update(&first, |raw: u8| seconds_changed(raw, seconds)),
        second.update_result(&first) is Ok,
        heard(chip, second.issued_since(&first)),
        third.ran(&second, read_script(second.mode(), Register::Seconds.read_command())),
        fault_of(third.issued_since(&second)) is None,
        heard(chip.after(ops_of(second.issued_since(&first))), third.issued_since(&second)),
    ensures
        ({
            let cell = cell_of(Register::Seconds.write_command());
            &&& byte_result(third.issued_since(&second)) matches Ok(raw)
            &&& running_value(raw) == running_value(chip.cells[cell])
            &&& seconds <= 59 ==> seconds_value(raw) == seconds
        }),
{
    let cell = cell_of(Register::Seconds.write_command());
    let update = |raw: u8| seconds_changed(raw, seconds);
    lemma_commands_name_cells(Register::Seconds);
    lemma_update_reaches_register(chip, first, second, update);
    let then = chip.after(ops_of(second.issued_since(&first)));
    lemma_read_returns_register(
        then,
        second.mode(),
        Register::Seconds.read_command(),
        third.issued_since(&second),
    );
    lemma_seconds_changed(chip.cells[cell], seconds);
}

} // verus!
