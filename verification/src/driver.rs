//! The device handle: the serial engine that clocks bytes over the three
//! wires, and the per-field operations built on it.

use vstd::prelude::*;
use crate::bcd::{bcd_of, encode_bcd};
use crate::bus::{BusEvent, BusOp, DataLine, Delay, LineMode, OutputLine, Reply};
use crate::error::ReadWriteError;
use crate::protocol::{
    CLOCK_HIGH_NANOS, CLOCK_LOW_NANOS, close_ops, HOLD_NANOS, lemma_read_bits_grow,
    lemma_read_script_len, lemma_write_bits_grow, lemma_write_script_len, open_ops, read_bit_ops,
    read_bits_ops, read_byte_ops, read_script, RECOVERY_MICROS, SETTLE_MICROS, SETUP_NANOS,
    TURNAROUND_NANOS, write_bit_ops, write_bits_ops, write_byte_ops, write_script,
};
use crate::record::{
    bit_result, byte_of_low_bits, byte_result, extends, fault_of, is_run, lemma_low_bits_agree,
    lemma_mode_concat, lemma_mode_kept, lemma_run_cut, lemma_run_stop, lemma_since_chain,
    lemma_since_push, lemma_since_same, lemma_step, lemma_then, mode_after, sampled, since,
    unit_result,
};
use crate::registers::{
    clock_running, date_value, day_value, decode_date, decode_day, decode_hour, decode_minutes,
    decode_month, decode_seconds, decode_year, halt_changed, hour_value, minutes_value,
    month_value, running_value, seconds_changed, seconds_value, with_running, with_seconds,
    year_value, Register,
};

verus! {

/// A DS1302 on three lines that this handle owns: serial clock, data and
/// chip-select. Beside the lines it keeps, for proofs only, the record of
/// every bus event since it was made. Only the eight smallest operations of
/// this module touch a line or the record, and each does both: one call,
/// one event. Everything above them is stated over the record.
pub struct Ds1302<SCLK, IO, CE> {
    sclk: SCLK,
    io: IO,
    ce: CE,
    mode: LineMode,
    log: Ghost<Seq<BusEvent>>,
}

impl<SCLK, IO, CE> Ds1302<SCLK, IO, CE> {
    /// Every bus event so far, oldest first.
    pub closed spec fn log(&self) -> Seq<BusEvent> {
        self.log@
    }

    /// Who holds the data line.
    pub closed spec fn mode(&self) -> LineMode {
        self.mode
    }

    /// The events that `self` has seen and `before` had not.
    pub open spec fn issued_since(&self, before: &Self) -> Seq<BusEvent> {
        since(before.log(), self.log())
    }

    /// `self` is `before` after some bus events, which ran `script` and left
    /// the data line where those events put it.
    pub open spec fn ran(&self, before: &Self, script: Seq<BusOp>) -> bool {
        &&& extends(before.log(), self.log())
        &&& is_run(script, self.issued_since(before))
        &&& self.mode() == mode_after(before.mode(), self.issued_since(before))
    }

    /// The part of the events since `before` that belongs to a first
    /// transaction with the given script.
    pub open spec fn first_part(&self, before: &Self, script: Seq<BusOp>) -> Seq<BusEvent> {
        let issued = self.issued_since(before);
        if issued.len() <= script.len() {
            issued
        } else {
            issued.take(script.len() as int)
        }
    }

    /// The events since `before` that came after that first transaction.
    pub open spec fn second_part(&self, before: &Self, script: Seq<BusOp>) -> Seq<BusEvent> {
        let issued = self.issued_since(before);
        if issued.len() <= script.len() {
            Seq::empty()
        } else {
            issued.skip(script.len() as int)
        }
    }

    /// `self` is `before` after a read-modify-write of the seconds register:
    /// a read transaction and, if that went through, a write transaction
    /// that stores `update` of the byte read. Nothing follows a read that
    /// was cut short.
    pub open spec fn ran_update(&self, before: &Self, update: spec_fn(u8) -> u8) -> bool {
        let fetch = read_script(before.mode(), Register::Seconds.read_command());
        let first = self.first_part(before, fetch);
        let second = self.second_part(before, fetch);
        &&& extends(before.log(), self.log())
        &&& self.mode() == mode_after(before.mode(), self.issued_since(before))
        &&& is_run(fetch, first)
        &&& match byte_result(first) {
            Ok(raw) => is_run(
                write_script(LineMode::Output, Register::Seconds.write_command(), update(raw)),
                second,
            ),
            Err(_) => second.len() == 0,
        }
    }

    /// What a read-modify-write returns: the error that cut the read short,
    /// or else how the write went.
    pub open spec fn update_result(&self, before: &Self) -> Result<(), ReadWriteError> {
        let fetch = read_script(before.mode(), Register::Seconds.read_command());
        match byte_result(self.first_part(before, fetch)) {
            Ok(_) => unit_result(self.second_part(before, fetch)),
            Err(e) => Err(e),
        }
    }

    /// Takes the three lines. The data line must be one that the host
    /// currently drives.
    pub fn new(sclk: SCLK, io: IO, ce: CE) -> (r: Self)
        ensures
            r.log() == Seq::<BusEvent>::empty(),
            r.mode() == LineMode::Output,
    {
        Self { sclk, io, ce, mode: LineMode::Output, log: Ghost(Seq::empty()) }
    }
}

impl<SCLK: OutputLine, IO: DataLine, CE: OutputLine> Ds1302<SCLK, IO, CE> {
    /// Whether the oscillator runs.
    pub fn is_running(&mut self, delay: &impl Delay) -> (r: Result<bool, ReadWriteError>)
        ensures
            final(self).ran(
                old(self),
                read_script(old(self).mode(), Register::Seconds.read_command()),
            ),
            r == match byte_result(final(self).issued_since(old(self))) {
                Ok(raw) => Ok::<bool, ReadWriteError>(running_value(raw)),
                Err(e) => Err(e),
            },
            r is Ok ==> final(self).mode() is Output,
    {
        match self.read(Register::Seconds.read_address(), delay) {
            Ok(seconds) => Ok(clock_running(seconds)),
            Err(e) => Err(e),
        }
    }

    /// The seconds, 0 to 59, without the halt flag that shares their register.
    pub fn get_seconds(&mut self, delay: &impl Delay) -> (r: Result<u8, ReadWriteError>)
        ensures
            final(self).ran(
                old(self),
                read_script(old(self).mode(), Register::Seconds.read_command()),
            ),
            r == match byte_result(final(self).issued_since(old(self))) {
                Ok(raw) => Ok::<u8, ReadWriteError>(seconds_value(raw)),
                Err(e) => Err(e),
            },
            r is Ok ==> final(self).mode() is Output,
    {
        match self.read(Register::Seconds.read_address(), delay) {
            Ok(seconds) => Ok(decode_seconds(seconds)),
            Err(e) => Err(e),
        }
    }

    /// The minutes, 0 to 59.
    pub fn get_minutes(&mut self, delay: &impl Delay) -> (r: Result<u8, ReadWriteError>)
        ensures
            final(self).ran(
                old(self),
                read_script(old(self).mode(), Register::Minutes.read_command()),
            ),
            r == match byte_result(final(self).issued_since(old(self))) {
                Ok(raw) => Ok::<u8, ReadWriteError>(minutes_value(raw)),
                Err(e) => Err(e),
            },
            r is Ok ==> final(self).mode() is Output,
    {
        match self.read(Register::Minutes.read_address(), delay) {
            Ok(minutes) => Ok(decode_minutes(minutes)),
            Err(e) => Err(e),
        }
    }

    /// The hour of the day, whichever way the chip keeps it.
    pub fn get_hour(&mut self, delay: &impl Delay) -> (r: Result<u8, ReadWriteError>)
        ensures
            final(self).ran(
                old(self),
                read_script(old(self).mode(), Register::Hour.read_command()),
            ),
            r == match byte_result(final(self).issued_since(old(self))) {
                Ok(raw) => Ok::<u8, ReadWriteError>(hour_value(raw)),
                Err(e) => Err(e),
            },
            r is Ok ==> final(self).mode() is Output,
    {
        match self.read(Register::Hour.read_address(), delay) {
            Ok(hour) => Ok(decode_hour(hour)),
            Err(e) => Err(e),
        }
    }

    /// The day of the month, 1 to 31.
    pub fn get_date(&mut self, delay: &impl Delay) -> (r: Result<u8, ReadWriteError>)
        ensures
            final(self).ran(
                old(self),
                read_script(old(self).mode(), Register::Date.read_command()),
            ),
            r == match byte_result(final(self).issued_since(old(self))) {
                Ok(raw) => Ok::<u8, ReadWriteError>(date_value(raw)),
                Err(e) => Err(e),
            },
            r is Ok ==> final(self).mode() is Output,
    {
        match self.read(Register::Date.read_address(), delay) {
            Ok(date) => Ok(decode_date(date)),
            Err(e) => Err(e),
        }
    }

    /// The month, 1 to 12.
    pub fn get_month(&mut self, delay: &impl Delay) -> (r: Result<u8, ReadWriteError>)
        ensures
            final(self).ran(
                old(self),
                read_script(old(self).mode(), Register::Month.read_command()),
            ),
            r == match byte_result(final(self).issued_since(old(self))) {
                Ok(raw) => Ok::<u8, ReadWriteError>(month_value(raw)),
                Err(e) => Err(e),
            },
            r is Ok ==> final(self).mode() is Output,
    {
        match self.read(Register::Month.read_address(), delay) {
            Ok(month) => Ok(decode_month(month)),
            Err(e) => Err(e),
        }
    }

    /// The day of the week.
    pub fn get_day(&mut self, delay: &impl Delay) -> (r: Result<u8, ReadWriteError>)
        ensures
            final(self).ran(
                old(self),
                read_script(old(self).mode(), Register::Day.read_command()),
            ),
            r == match byte_result(final(self).issued_since(old(self))) {
                Ok(raw) => Ok::<u8, ReadWriteError>(day_value(raw)),
                Err(e) => Err(e),
            },
            r is Ok ==> final(self).mode() is Output,
    {
        match self.read(Register::Day.read_address(), delay) {
            Ok(day) => Ok(decode_day(day)),
            Err(e) => Err(e),
        }
    }

    /// The year within the century, 0 to 99.
    pub fn get_year(&mut self, delay: &impl Delay) -> (r: Result<u8, ReadWriteError>)
        ensures
            final(self).ran(
                old(self),
                read_script(old(self).mode(), Register::Year.read_command()),
            ),
            r == match byte_result(final(self).issued_since(old(self))) {
                Ok(raw) => Ok::<u8, ReadWriteError>(year_value(raw)),
                Err(e) => Err(e),
            },
            r is Ok ==> final(self).mode() is Output,
    {
        match self.read(Register::Year.read_address(), delay) {
            Ok(year) => Ok(decode_year(year)),
            Err(e) => Err(e),
        }
    }

    /// Starts or stops the oscillator. The seconds register is read and
    /// written back with only the halt flag changed.
    pub fn set_running(&mut self, is_running: bool, delay: &impl Delay) -> (r: Result<
        (),
        ReadWriteError,
    >)
        ensures
            final(self).ran_update(old(self), |raw: u8| halt_changed(raw, is_running)),
            r == final(self).update_result(old(self)),
            r is Ok ==> final(self).mode() is Output,
    {
        let ghost start = self.log();
        let ghost held = self.mode();
        let ghost fetch = read_script(held, Register::Seconds.read_command());
        let seconds = match self.read(Register::Seconds.read_address(), delay) {
            Ok(seconds) => seconds,
            Err(e) => {
                proof {
                    lemma_read_script_len(held, Register::Seconds.read_command());
                    let d = self.issued_since(old(self));
                    assert(d.take(d.len() as int) =~= d);
                }
                return Err(e);
            },
        };
        let ghost at = self.log();
        let data = with_running(seconds, is_running);
        let r = self.write(Register::Seconds.write_address(), data, delay);
        proof {
            lemma_since_chain(start, at, self.log());
            lemma_mode_concat(held, since(start, at), since(at, self.log()));
            let d = self.issued_since(old(self));
            assert(d.take(fetch.len() as int) =~= since(start, at));
            assert(d.skip(fetch.len() as int) =~= since(at, self.log()));
            lemma_write_script_len(LineMode::Output, Register::Seconds.write_command(), data);
        }
        r
    }

    /// Sets the seconds. The seconds register is read first, and the halt
    /// flag found there is written back with the new seconds, so that the
    /// oscillator neither starts nor stops.
    pub fn set_seconds(&mut self, seconds: u8, delay: &impl Delay) -> (r: Result<
        (),
        ReadWriteError,
    >)
        ensures
            final(self).ran_update(old(self), |raw: u8| seconds_changed(raw, seconds)),
            r == final(self).update_result(old(self)),
            r is Ok ==> final(self).mode() is Output,
    {
        let ghost start = self.log();
        let ghost held = self.mode();
        let ghost fetch = read_script(held, Register::Seconds.read_command());
        let current = match self.read(Register::Seconds.read_address(), delay) {
            Ok(current) => current,
            Err(e) => {
                proof {
                    lemma_read_script_len(held, Register::Seconds.read_command());
                    let d = self.issued_since(old(self));
                    assert(d.take(d.len() as int) =~= d);
                }
                return Err(e);
            },
        };
        let ghost at = self.log();
        let data = with_seconds(current, seconds);
        let r = self.write(Register::Seconds.write_address(), data, delay);
        proof {
            lemma_since_chain(start, at, self.log());
            lemma_mode_concat(held, since(start, at), since(at, self.log()));
            let d = self.issued_since(old(self));
            assert(d.take(fetch.len() as int) =~= since(start, at));
            assert(d.skip(fetch.len() as int) =~= since(at, self.log()));
            lemma_write_script_len(LineMode::Output, Register::Seconds.write_command(), data);
        }
        r
    }

    /// Sets the minutes.
    pub fn set_minutes(&mut self, minutes: u8, delay: &impl Delay) -> (r: Result<
        (),
        ReadWriteError,
    >)
        ensures
            final(self).ran(
                old(self),
                write_script(old(self).mode(), Register::Minutes.write_command(), bcd_of(minutes)),
            ),
            final(self).mode() is Output,
            r == unit_result(final(self).issued_since(old(self))),
    {
        let minutes = encode_bcd(minutes);
        self.write(Register::Minutes.write_address(), minutes, delay)
    }

    /// Sets the hour on the 24-hour clock.
    pub fn set_hour(&mut self, hour: u8, delay: &impl Delay) -> (r: Result<(), ReadWriteError>)
        ensures
            final(self).ran(
                old(self),
                write_script(old(self).mode(), Register::Hour.write_command(), bcd_of(hour)),
            ),
            final(self).mode() is Output,
            r == unit_result(final(self).issued_since(old(self))),
    {
        let hour = encode_bcd(hour);
        self.write(Register::Hour.write_address(), hour, delay)
    }

    /// Sets the day of the month.
    pub fn set_date(&mut self, date: u8, delay: &impl Delay) -> (r: Result<(), ReadWriteError>)
        ensures
            final(self).ran(
                old(self),
                write_script(old(self).mode(), Register::Date.write_command(), bcd_of(date)),
            ),
            final(self).mode() is Output,
            r == unit_result(final(self).issued_since(old(self))),
    {
        let date = encode_bcd(date);
        self.write(Register::Date.write_address(), date, delay)
    }

    /// Sets the month.
    pub fn set_month(&mut self, month: u8, delay: &impl Delay) -> (r: Result<(), ReadWriteError>)
        ensures
            final(self).ran(
                old(self),
                write_script(old(self).mode(), Register::Month.write_command(), bcd_of(month)),
            ),
            final(self).mode() is Output,
            r == unit_result(final(self).issued_since(old(self))),
    {
        let month = encode_bcd(month);
        self.write(Register::Month.write_address(), month, delay)
    }

    /// Sets the day of the week.
    pub fn set_day(&mut self, day: u8, delay: &impl Delay) -> (r: Result<(), ReadWriteError>)
        ensures
            final(self).ran(
                old(self),
                write_script(old(self).mode(), Register::Day.write_command(), bcd_of(day)),
            ),
            final(self).mode() is Output,
            r == unit_result(final(self).issued_since(old(self))),
    {
        let day = encode_bcd(day);
        self.write(Register::Day.write_address(), day, delay)
    }

    /// Sets the year within the century.
    pub fn set_year(&mut self, year: u8, delay: &impl Delay) -> (r: Result<(), ReadWriteError>)
        ensures
            final(self).ran(
                old(self),
                write_script(old(self).mode(), Register::Year.write_command(), bcd_of(year)),
            ),
            final(self).mode() is Output,
            r == unit_result(final(self).issued_since(old(self))),
    {
        let year = encode_bcd(year);
        self.write(Register::Year.write_address(), year, delay)
    }

    /// Drives the clock line and notes it.
    fn clock(&mut self, high: bool) -> (r: Result<(), ReadWriteError>)
        ensures
            final(self).log() == old(self).log().push(
                BusEvent::answered(BusOp::Clock(high), r is Ok),
            ),
            final(self).mode() == old(self).mode(),
            r is Err ==> r == Err::<(), ReadWriteError>(ReadWriteError::ClockError),
    {
        let driven = if high {
            self.sclk.set_high()
        } else {
            self.sclk.set_low()
        };
        let r = match driven {
            Ok(()) => Ok(()),
            Err(_) => Err(ReadWriteError::ClockError),
        };
        proof {
            self.log@ = self.log@.push(BusEvent::answered(BusOp::Clock(high), r is Ok));
        }
        r
    }

    /// Drives chip-select and notes it.
    fn chip_select(&mut self, high: bool) -> (r: Result<(), ReadWriteError>)
        ensures
            final(self).log() == old(self).log().push(
                BusEvent::answered(BusOp::ChipSelect(high), r is Ok),
            ),
            final(self).mode() == old(self).mode(),
            r is Err ==> r == Err::<(), ReadWriteError>(ReadWriteError::ChipSelectError),
    {
        let driven = if high {
            self.ce.set_high()
        } else {
            self.ce.set_low()
        };
        let r = match driven {
            Ok(()) => Ok(()),
            Err(_) => Err(ReadWriteError::ChipSelectError),
        };
        proof {
            self.log@ = self.log@.push(BusEvent::answered(BusOp::ChipSelect(high), r is Ok));
        }
        r
    }

    /// Drives the data line and notes it.
    fn data_out(&mut self, bit: bool) -> (r: Result<(), ReadWriteError>)
        requires
            old(self).mode() is Output,
        ensures
            final(self).log() == old(self).log().push(
                BusEvent::answered(BusOp::DataOut(bit), r is Ok),
            ),
            final(self).mode() == old(self).mode(),
            r is Err ==> r == Err::<(), ReadWriteError>(ReadWriteError::WriteError),
    {
        let r = match self.io.set_state(bit) {
            Ok(()) => Ok(()),
            Err(_) => Err(ReadWriteError::WriteError),
        };
        proof {
            self.log@ = self.log@.push(BusEvent::answered(BusOp::DataOut(bit), r is Ok));
        }
        r
    }

    /// Samples the data line and notes what it found.
    fn data_in(&mut self) -> (r: Result<bool, ReadWriteError>)
        requires
            old(self).mode() is Input,
        ensures
            final(self).log() == old(self).log().push(
                BusEvent::sample(
                    match r {
                        Ok(level) => Some(level),
                        Err(_) => None,
                    },
                ),
            ),
            final(self).mode() == old(self).mode(),
            r is Err ==> r == Err::<bool, ReadWriteError>(ReadWriteError::ReadError),
    {
        let r = match self.io.is_high() {
            Ok(level) => Ok(level),
            Err(_) => Err(ReadWriteError::ReadError),
        };
        proof {
            self.log@ = self.log@.push(
                BusEvent::sample(
                    match r {
                        Ok(level) => Some(level),
                        Err(_) => None,
                    },
                ),
            );
        }
        r
    }

    /// Hands the data line to the chip and notes it.
    fn release(&mut self)
        requires
            old(self).mode() is Output,
        ensures
            final(self).log() == old(self).log().push(BusEvent::answered(BusOp::Release, true)),
            final(self).mode() is Input,
    {
        self.io.release();
        self.mode = LineMode::Input;
        proof {
            self.log@ = self.log@.push(BusEvent::answered(BusOp::Release, true));
        }
    }

    /// Takes the data line back and notes it.
    fn reclaim(&mut self)
        requires
            old(self).mode() is Input,
        ensures
            final(self).log() == old(self).log().push(BusEvent::answered(BusOp::Reclaim, true)),
            final(self).mode() is Output,
    {
        self.io.reclaim();
        self.mode = LineMode::Output;
        proof {
            self.log@ = self.log@.push(BusEvent::answered(BusOp::Reclaim, true));
        }
    }

    /// Waits and notes it.
    fn wait_micros(&mut self, delay: &impl Delay, micros: u32)
        ensures
            final(self).log() == old(self).log().push(
                BusEvent::answered(BusOp::WaitMicros(micros), true),
            ),
            final(self).mode() == old(self).mode(),
    {
        delay.delay_micro(micros);
        proof {
            self.log@ = self.log@.push(BusEvent::answered(BusOp::WaitMicros(micros), true));
        }
    }

    /// Waits and notes it.
    fn wait_nanos(&mut self, delay: &impl Delay, nanos: u32)
        ensures
            final(self).log() == old(self).log().push(
                BusEvent::answered(BusOp::WaitNanos(nanos), true),
            ),
            final(self).mode() == old(self).mode(),
    {
        delay.delay_nano(nanos);
        proof {
            self.log@ = self.log@.push(BusEvent::answered(BusOp::WaitNanos(nanos), true));
        }
    }

    /// Clocks one bit out.
    pub(crate) fn write_bit(
        &mut self,
        bit: bool,
        delay: &impl Delay,
    ) -> (r: Result<(), ReadWriteError>)
        requires
            old(self).mode() is Output,
        ensures
            final(self).ran(old(self), write_bit_ops(bit)),
            final(self).mode() is Output,
            sampled(final(self).issued_since(old(self))) == Seq::<bool>::empty(),
            r == unit_result(final(self).issued_since(old(self))),
    {
        let ghost start = self.log();
        let ghost script = write_bit_ops(bit);
        proof {
            lemma_since_same(start);
        }
        let ghost at = self.log();
        let r = self.data_out(bit);
        proof {
            lemma_step(script, LineMode::Output, start, at, self.log().last());
        }
        if let Err(e) = r {
            return Err(e);
        }
        let ghost at = self.log();
        self.wait_nanos(delay, SETUP_NANOS);
        proof {
            lemma_step(script, LineMode::Output, start, at, self.log().last());
        }
        let ghost at = self.log();
        let r = self.clock(true);
        proof {
            lemma_step(script, LineMode::Output, start, at, self.log().last());
        }
        if let Err(e) = r {
            return Err(e);
        }
        let ghost at = self.log();
        self.wait_nanos(delay, CLOCK_HIGH_NANOS);
        proof {
            lemma_step(script, LineMode::Output, start, at, self.log().last());
        }
        let ghost at = self.log();
        let r = self.clock(false);
        proof {
            lemma_step(script, LineMode::Output, start, at, self.log().last());
        }
        if let Err(e) = r {
            return Err(e);
        }
        let ghost at = self.log();
        self.wait_nanos(delay, CLOCK_LOW_NANOS);
        proof {
            lemma_step(script, LineMode::Output, start, at, self.log().last());
        }
        Ok(())
    }

    /// Clocks one bit in: the clock rises, stays high for its time, the line
    /// is sampled, and the clock falls.
    pub(crate) fn read_bit(&mut self, delay: &impl Delay) -> (r: Result<bool, ReadWriteError>)
        requires
            old(self).mode() is Input,
        ensures
            final(self).ran(old(self), read_bit_ops()),
            final(self).mode() is Input,
            r == bit_result(final(self).issued_since(old(self))),
            r is Ok ==> sampled(final(self).issued_since(old(self))).len() == 1,
    {
        let ghost start = self.log();
        let ghost script = read_bit_ops();
        proof {
            lemma_since_same(start);
        }
        let ghost at = self.log();
        self.wait_nanos(delay, TURNAROUND_NANOS);
        proof {
            lemma_step(script, LineMode::Input, start, at, self.log().last());
        }
        let ghost at = self.log();
        let r = self.clock(true);
        proof {
            lemma_step(script, LineMode::Input, start, at, self.log().last());
        }
        if let Err(e) = r {
            return Err(e);
        }
        let ghost at = self.log();
        self.wait_nanos(delay, CLOCK_HIGH_NANOS);
        proof {
            lemma_step(script, LineMode::Input, start, at, self.log().last());
        }
        let ghost at = self.log();
        let sample = self.data_in();
        proof {
            lemma_step(script, LineMode::Input, start, at, self.log().last());
        }
        let bit = match sample {
            Ok(bit) => bit,
            Err(e) => {
                return Err(e);
            },
        };
        let ghost at = self.log();
        let r = self.clock(false);
        proof {
            lemma_step(script, LineMode::Input, start, at, self.log().last());
        }
        if let Err(e) = r {
            return Err(e);
        }
        let ghost at = self.log();
        self.wait_nanos(delay, CLOCK_LOW_NANOS);
        proof {
            lemma_step(script, LineMode::Input, start, at, self.log().last());
        }
        Ok(bit)
    }

    /// Clocks one byte out, least significant bit first.
    pub(crate) fn write_byte(
        &mut self,
        byte: u8,
        delay: &impl Delay,
    ) -> (r: Result<(), ReadWriteError>)
        requires
            old(self).mode() is Output,
        ensures
            final(self).ran(old(self), write_byte_ops(byte)),
            final(self).mode() is Output,
            sampled(final(self).issued_since(old(self))) == Seq::<bool>::empty(),
            r == unit_result(final(self).issued_since(old(self))),
    {
        let ghost start = self.log();
        let ghost whole = write_byte_ops(byte);
        let ghost low = seq![BusOp::Clock(false)];
        proof {
            lemma_since_same(start);
            lemma_write_bits_grow(byte, 0, 8);
        }
        let r = self.clock(false);
        proof {
            lemma_step(low, LineMode::Output, start, start, self.log().last());
        }
        if let Err(e) = r {
            proof {
                lemma_run_cut(low, whole, self.issued_since(old(self)));
            }
            return Err(e);
        }
        assert(low + write_bits_ops(byte, 0) =~= low);
        for i in 0..8u8
            invariant
                self.mode() is Output,
                old(self).mode() is Output,
                start == old(self).log(),
                whole == write_byte_ops(byte),
                low == seq![BusOp::Clock(false)],
                extends(start, self.log()),
                is_run(low + write_bits_ops(byte, i as nat), since(start, self.log())),
                fault_of(since(start, self.log())) is None,
                sampled(since(start, self.log())) == Seq::<bool>::empty(),
                mode_after(LineMode::Output, since(start, self.log())) is Output,
        {
            let ghost at = self.log();
            let ghost done = low + write_bits_ops(byte, i as nat);
            let bit = ((byte >> i) & 1) == 1;
            let r = self.write_bit(bit, delay);
            proof {
                lemma_then(done, write_bit_ops(bit), LineMode::Output, start, at, self.log());
                assert(done + write_bit_ops(bit) =~= low + write_bits_ops(byte, (i + 1) as nat));
            }
            if let Err(e) = r {
                proof {
                    lemma_write_bits_grow(byte, (i + 1) as nat, 8);
                    lemma_run_cut(
                        low + write_bits_ops(byte, (i + 1) as nat),
                        whole,
                        self.issued_since(old(self)),
                    );
                }
                return Err(e);
            }
        }
        Ok(())
    }

    /// Clocks one byte in, least significant bit first. The data line goes
    /// to the chip for the eight bits and comes back after them.
    pub(crate) fn read_byte(&mut self, delay: &impl Delay) -> (r: Result<u8, ReadWriteError>)
        requires
            old(self).mode() is Output,
        ensures
            final(self).ran(old(self), read_byte_ops()),
            r is Ok ==> final(self).mode() is Output,
            r == byte_result(final(self).issued_since(old(self))),
    {
        let mut data: u8 = 0;
        let ghost start = self.log();
        let ghost whole = read_byte_ops();
        let ghost head = seq![BusOp::Clock(false), BusOp::Release];
        proof {
            lemma_since_same(start);
            lemma_read_bits_grow(0, 8);
        }
        let r = self.clock(false);
        proof {
            lemma_step(head, LineMode::Output, start, start, self.log().last());
        }
        if let Err(e) = r {
            proof {
                lemma_run_cut(head, whole, self.issued_since(old(self)));
            }
            return Err(e);
        }
        let ghost at = self.log();
        self.release();
        proof {
            lemma_step(head, LineMode::Output, start, at, self.log().last());
        }
        assert(head + read_bits_ops(0) =~= head);
        for i in 0..8u8
            invariant
                self.mode() is Input,
                old(self).mode() is Output,
                start == old(self).log(),
                whole == read_byte_ops(),
                head == seq![BusOp::Clock(false), BusOp::Release],
                extends(start, self.log()),
                is_run(head + read_bits_ops(i as nat), since(start, self.log())),
                fault_of(since(start, self.log())) is None,
                sampled(since(start, self.log())).len() == i,
                data == byte_of_low_bits(sampled(since(start, self.log())), i as nat),
                mode_after(LineMode::Output, since(start, self.log())) is Input,
        {
            let ghost at = self.log();
            let ghost done = head + read_bits_ops(i as nat);
            let ghost seen = sampled(since(start, at));
            let r = self.read_bit(delay);
            proof {
                lemma_then(done, read_bit_ops(), LineMode::Output, start, at, self.log());
                assert(done + read_bit_ops() =~= head + read_bits_ops((i + 1) as nat));
                lemma_mode_kept(LineMode::Input, read_bit_ops(), since(at, self.log()));
            }
            let bit = match r {
                Ok(bit) => bit,
                Err(e) => {
                    proof {
                        lemma_read_bits_grow((i + 1) as nat, 8);
                        lemma_run_cut(
                            head + read_bits_ops((i + 1) as nat),
                            whole,
                            self.issued_since(old(self)),
                        );
                    }
                    return Err(e);
                },
            };
            proof {
                let now = sampled(since(start, self.log()));
                assert(now[i as int] == bit);
                lemma_low_bits_agree(seen, now, i as nat);
            }
            if bit {
                data = data | (1u8 << i);
            }
        }
        let ghost at = self.log();
        self.reclaim();
        proof {
            let done = head + read_bits_ops(8);
            lemma_since_push(at, self.log().last());
            assert(is_run(seq![BusOp::Reclaim], since(at, self.log())));
            lemma_then(done, seq![BusOp::Reclaim], LineMode::Output, start, at, self.log());
            assert(sampled(since(at, self.log())) =~= Seq::<bool>::empty()) by {
                reveal_with_fuel(sampled, 2);
            }
            assert(sampled(since(start, self.log())) =~= sampled(since(start, at)));
            assert(mode_after(LineMode::Input, since(at, self.log())) is Output);
        }
        Ok(data)
    }

    /// Opens a transaction: clock low, chip-select high, and the time the
    /// chip needs before the first clock edge.
    fn begin(&mut self, delay: &impl Delay) -> (r: Result<(), ReadWriteError>)
        ensures
            final(self).ran(old(self), open_ops(old(self).mode())),
            final(self).mode() is Output,
            sampled(final(self).issued_since(old(self))) == Seq::<bool>::empty(),
            r == unit_result(final(self).issued_since(old(self))),
    {
        let ghost start = self.log();
        let ghost held = self.mode();
        let ghost script = open_ops(held);
        proof {
            lemma_since_same(start);
        }
        match self.mode {
            LineMode::Input => {
                self.reclaim();
                proof {
                    lemma_step(script, held, start, start, self.log().last());
                }
            },
            LineMode::Output => {},
        }
        let ghost at = self.log();
        let r = self.clock(false);
        proof {
            lemma_step(script, held, start, at, self.log().last());
        }
        if let Err(e) = r {
            return Err(e);
        }
        let ghost at = self.log();
        let r = self.chip_select(true);
        proof {
            lemma_step(script, held, start, at, self.log().last());
        }
        if let Err(e) = r {
            return Err(e);
        }
        let ghost at = self.log();
        self.wait_micros(delay, SETTLE_MICROS);
        proof {
            lemma_step(script, held, start, at, self.log().last());
        }
        Ok(())
    }

    /// Closes a transaction: chip-select low, and the time the chip needs
    /// before the next one.
    fn end(&mut self, delay: &impl Delay) -> (r: Result<(), ReadWriteError>)
        ensures
            final(self).ran(old(self), close_ops()),
            final(self).mode() == old(self).mode(),
            sampled(final(self).issued_since(old(self))) == Seq::<bool>::empty(),
            r == unit_result(final(self).issued_since(old(self))),
    {
        let ghost start = self.log();
        let ghost held = self.mode();
        let ghost script = close_ops();
        proof {
            lemma_since_same(start);
        }
        self.wait_nanos(delay, HOLD_NANOS);
        proof {
            lemma_step(script, held, start, start, self.log().last());
        }
        let ghost at = self.log();
        let r = self.chip_select(false);
        proof {
            lemma_step(script, held, start, at, self.log().last());
        }
        if let Err(e) = r {
            return Err(e);
        }
        let ghost at = self.log();
        self.wait_micros(delay, RECOVERY_MICROS);
        proof {
            lemma_step(script, held, start, at, self.log().last());
        }
        Ok(())
    }

    /// One write transaction: the command byte, then the data byte.
    pub(crate) fn write(
        &mut self,
        addr: u8,
        data: u8,
        delay: &impl Delay,
    ) -> (r: Result<(), ReadWriteError>)
        ensures
            final(self).ran(old(self), write_script(old(self).mode(), addr, data)),
            final(self).mode() is Output,
            r == unit_result(final(self).issued_since(old(self))),
    {
        let ghost start = self.log();
        let ghost held = self.mode();
        let ghost s1 = open_ops(held);
        let ghost s2 = s1 + write_byte_ops(addr);
        let ghost s3 = s2 + write_byte_ops(data);
        if let Err(e) = self.begin(delay) {
            proof {
                let d = self.issued_since(old(self));
                lemma_run_stop(s1, write_byte_ops(addr), d);
                lemma_run_stop(s2, write_byte_ops(data), d);
                lemma_run_stop(s3, close_ops(), d);
            }
            return Err(e);
        }
        let ghost at = self.log();
        let r = self.write_byte(addr, delay);
        proof {
            lemma_write_bits_grow(addr, 8, 8);
            lemma_then(s1, write_byte_ops(addr), held, start, at, self.log());
        }
        if let Err(e) = r {
            proof {
                let d = self.issued_since(old(self));
                lemma_run_stop(s2, write_byte_ops(data), d);
                lemma_run_stop(s3, close_ops(), d);
            }
            return Err(e);
        }
        let ghost at = self.log();
        let r = self.write_byte(data, delay);
        proof {
            lemma_write_bits_grow(data, 8, 8);
            lemma_then(s2, write_byte_ops(data), held, start, at, self.log());
        }
        if let Err(e) = r {
            proof {
                lemma_run_stop(s3, close_ops(), self.issued_since(old(self)));
            }
            return Err(e);
        }
        let ghost at = self.log();
        let r = self.end(delay);
        proof {
            lemma_then(s3, close_ops(), held, start, at, self.log());
        }
        r
    }

    /// One read transaction: the command byte out, then the data byte in.
    pub(crate) fn read(&mut self, addr: u8, delay: &impl Delay) -> (r: Result<u8, ReadWriteError>)
        ensures
            final(self).ran(old(self), read_script(old(self).mode(), addr)),
            r is Ok ==> final(self).mode() is Output,
            r == byte_result(final(self).issued_since(old(self))),
    {
        let ghost start = self.log();
        let ghost held = self.mode();
        let ghost s1 = open_ops(held);
        let ghost s2 = s1 + write_byte_ops(addr);
        let ghost s3 = s2 + read_byte_ops();
        if let Err(e) = self.begin(delay) {
            proof {
                let d = self.issued_since(old(self));
                lemma_run_stop(s1, write_byte_ops(addr), d);
                lemma_run_stop(s2, read_byte_ops(), d);
                lemma_run_stop(s3, close_ops(), d);
            }
            return Err(e);
        }
        let ghost at = self.log();
        let r = self.write_byte(addr, delay);
        proof {
            lemma_write_bits_grow(addr, 8, 8);
            lemma_then(s1, write_byte_ops(addr), held, start, at, self.log());
        }
        if let Err(e) = r {
            proof {
                let d = self.issued_since(old(self));
                lemma_run_stop(s2, read_byte_ops(), d);
                lemma_run_stop(s3, close_ops(), d);
            }
            return Err(e);
        }
        let ghost at = self.log();
        let r = self.read_byte(delay);
        proof {
            lemma_read_bits_grow(8, 8);
            lemma_then(s2, read_byte_ops(), held, start, at, self.log());
        }
        let data = match r {
            Ok(data) => data,
            Err(e) => {
                proof {
                    lemma_run_stop(s3, close_ops(), self.issued_since(old(self)));
                }
                return Err(e);
            },
        };
        let ghost at = self.log();
        let r = self.end(delay);
        proof {
            lemma_then(s3, close_ops(), held, start, at, self.log());
        }
        match r {
            Ok(()) => Ok(data),
            Err(e) => Err(e),
        }
    }
}

} // verus!
