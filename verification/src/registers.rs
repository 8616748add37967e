//! The clock registers: where each one sits, and how the bits of each are
//! laid out.

use vstd::prelude::*;
use crate::bcd::{bcd_of, bcd_value, decode_bcd, encode_bcd, lemma_decode_encode};

verus! {

/// The seven registers that keep the time and the date.
#[derive(Debug, Clone, Copy, PartialEq, Eq, Structural)]
pub enum Register {
    Seconds,
    Minutes,
    Hour,
    Date,
    Month,
    Day,
    Year,
}

impl Register {
    /// The register's number within the clock bank.
    pub open spec fn index(self) -> u8 {
        match self {
            Register::Seconds => 0,
            Register::Minutes => 1,
            Register::Hour => 2,
            Register::Date => 3,
            Register::Month => 4,
            Register::Day => 5,
            Register::Year => 6,
        }
    }

    /// The command byte that writes the register.
    pub open spec fn write_command(self) -> u8 {
        match self {
            Register::Seconds => 0x80,
            Register::Minutes => 0x82,
            Register::Hour => 0x84,
            Register::Date => 0x86,
            Register::Month => 0x88,
            Register::Day => 0x8A,
            Register::Year => 0x8C,
        }
    }

    /// The command byte that reads the register.
    pub open spec fn read_command(self) -> u8 {
        match self {
            Register::Seconds => 0x81,
            Register::Minutes => 0x83,
            Register::Hour => 0x85,
            Register::Date => 0x87,
            Register::Month => 0x89,
            Register::Day => 0x8B,
            Register::Year => 0x8D,
        }
    }

    /// The command byte that opens a write of the register.
    pub fn write_address(self) -> (r: u8)
        ensures
            r == self.write_command(),
            r == 0x80 + 2 * self.index(),
    {
        match self {
            Register::Seconds => 0x80,
            Register::Minutes => 0x82,
            Register::Hour => 0x84,
            Register::Date => 0x86,
            Register::Month => 0x88,
            Register::Day => 0x8A,
            Register::Year => 0x8C,
        }
    }

    /// The command byte that opens a read of the register.
    pub fn read_address(self) -> (r: u8)
        ensures
            r == self.read_command(),
            r == self.write_command() | 0x01,
            r == self.write_command() + 1,
    {
        proof {
            lemma_read_command(self);
        }
        match self {
            Register::Seconds => 0x81,
            Register::Minutes => 0x83,
            Register::Hour => 0x85,
            Register::Date => 0x87,
            Register::Month => 0x89,
            Register::Day => 0x8B,
            Register::Year => 0x8D,
        }
    }
}

/// The command byte for a register and a direction.
pub fn command_byte(register: Register, is_read: bool) -> (r: u8)
    ensures
        r == if is_read {
            register.read_command()
        } else {
            register.write_command()
        },
{
    if is_read {
        register.read_address()
    } else {
        register.write_address()
    }
}

/// A register's read command is its write command with bit 0 set, which makes
/// it the next number up. Both select the clock bank: bit 7 set, bit 6 clear,
/// the register's number in the bits between.
pub proof fn lemma_read_command(register: Register)
    ensures
        register.read_command() == register.write_command() | 0x01,
        register.read_command() == register.write_command() + 1,
        register.write_command() & 0x01 == 0,
        register.write_command() & 0xC0 == 0x80,
        (register.write_command() >> 1) & 0x1F == register.index(),
        (register.read_command() >> 1) & 0x1F == register.index(),
{
    assert(0x80u8 | 0x01 == 0x81 && 0x82u8 | 0x01 == 0x83 && 0x84u8 | 0x01 == 0x85 && 0x86u8 | 0x01
        == 0x87 && 0x88u8 | 0x01 == 0x89 && 0x8Au8 | 0x01 == 0x8B && 0x8Cu8 | 0x01 == 0x8D)
        by (bit_vector);
    assert(0x80u8 & 0x01 == 0 && 0x82u8 & 0x01 == 0 && 0x84u8 & 0x01 == 0 && 0x86u8 & 0x01 == 0
        && 0x88u8 & 0x01 == 0 && 0x8Au8 & 0x01 == 0 && 0x8Cu8 & 0x01 == 0) by (bit_vector);
    assert(0x80u8 & 0xC0 == 0x80 && 0x82u8 & 0xC0 == 0x80 && 0x84u8 & 0xC0 == 0x80 && 0x86u8 & 0xC0
        == 0x80 && 0x88u8 & 0xC0 == 0x80 && 0x8Au8 & 0xC0 == 0x80 && 0x8Cu8 & 0xC0 == 0x80)
        by (bit_vector);
    assert((0x80u8 >> 1) & 0x1F == 0 && (0x82u8 >> 1) & 0x1F == 1 && (0x84u8 >> 1) & 0x1F == 2 && (
    0x86u8 >> 1) & 0x1F == 3 && (0x88u8 >> 1) & 0x1F == 4 && (0x8Au8 >> 1) & 0x1F == 5 && (0x8Cu8
        >> 1) & 0x1F == 6) by (bit_vector);
    assert((0x81u8 >> 1) & 0x1F == 0 && (0x83u8 >> 1) & 0x1F == 1 && (0x85u8 >> 1) & 0x1F == 2 && (
    0x87u8 >> 1) & 0x1F == 3 && (0x89u8 >> 1) & 0x1F == 4 && (0x8Bu8 >> 1) & 0x1F == 5 && (0x8Du8
        >> 1) & 0x1F == 6) by (bit_vector);
}

/// Whether the oscillator runs: bit 7 of the seconds register is the halt flag.
pub open spec fn running_value(raw: u8) -> bool {
    raw < 0x80
}

/// The seconds: the low seven bits of the seconds register, in BCD.
pub open spec fn seconds_value(raw: u8) -> u8 {
    bcd_value(raw % 0x80)
}

/// The minutes: the low seven bits of the minutes register, in BCD.
pub open spec fn minutes_value(raw: u8) -> u8 {
    bcd_value(raw % 0x80)
}

/// Bit 7 of the hour register clear: the hour is kept on the 24-hour clock.
pub open spec fn is_24h(raw: u8) -> bool {
    raw < 0x80
}

/// Bit 5 of the hour register, which on the 12-hour clock says afternoon.
pub open spec fn is_pm(raw: u8) -> bool {
    (raw / 0x20) % 2 == 1
}

/// The hour of the day. On the 24-hour clock the low six bits are the hour in
/// BCD. On the 12-hour clock the low five bits are, and twelve is added in
/// the afternoon.
pub open spec fn hour_value(raw: u8) -> u8 {
    if is_24h(raw) {
        bcd_value(raw % 0x40)
    } else if is_pm(raw) {
        (bcd_value(raw % 0x20) + 12) as u8
    } else {
        bcd_value(raw % 0x20)
    }
}

/// The day of the month: the low six bits of the date register, in BCD.
pub open spec fn date_value(raw: u8) -> u8 {
    bcd_value(raw % 0x40)
}

/// The month: the low five bits of the month register, in BCD.
pub open spec fn month_value(raw: u8) -> u8 {
    bcd_value(raw % 0x20)
}

/// The day of the week: the low three bits of the day register.
pub open spec fn day_value(raw: u8) -> u8 {
    bcd_value(raw % 0x08)
}

/// The year within the century: the whole year register, in BCD.
pub open spec fn year_value(raw: u8) -> u8 {
    bcd_value(raw)
}

/// The seconds register with the halt flag set as asked and the low seven
/// bits as they were.
pub open spec fn halt_changed(raw: u8, running: bool) -> u8 {
    if running {
        raw % 0x80
    } else {
        (raw % 0x80 + 0x80) as u8
    }
}

/// The seconds register with new seconds in the low seven bits and the halt
/// flag as it was in `current`.
pub open spec fn seconds_changed(current: u8, seconds: u8) -> u8 {
    if running_value(current) {
        bcd_of(seconds) % 0x80
    } else {
        (bcd_of(seconds) % 0x80 + 0x80) as u8
    }
}

/// Whether a seconds register says that the oscillator runs.
pub fn clock_running(raw: u8) -> (r: bool)
    ensures
        r == running_value(raw),
{
    assert((raw & 0b1000_0000 == 0b0000_0000) == (raw < 0x80)) by (bit_vector);
    raw & 0b1000_0000 == 0b0000_0000
}

/// The seconds in a seconds register.
pub fn decode_seconds(raw: u8) -> (r: u8)
    ensures
        r == seconds_value(raw),
{
    assert(raw & 0b0111_1111 == raw % 0x80) by (bit_vector);
    decode_bcd(raw & 0b0111_1111)
}

/// The minutes in a minutes register.
pub fn decode_minutes(raw: u8) -> (r: u8)
    ensures
        r == minutes_value(raw),
{
    assert(raw & 0b0111_1111 == raw % 0x80) by (bit_vector);
    decode_bcd(raw & 0b0111_1111)
}

/// The hour of the day in an hour register, on either clock.
pub fn decode_hour(raw: u8) -> (r: u8)
    ensures
        r == hour_value(raw),
{
    assert((raw & 0b1000_0000 == 0b0000_0000) == (raw < 0x80)) by (bit_vector);
    assert((raw & 0b0010_0000 == 0b0010_0000) == ((raw / 0x20) % 2 == 1)) by (bit_vector);
    assert(raw & 0b0011_1111 == raw % 0x40) by (bit_vector);
    assert(raw & 0b0001_1111 == raw % 0x20) by (bit_vector);
    let is_24h = raw & 0b1000_0000 == 0b0000_0000;
    let is_pm = raw & 0b0010_0000 == 0b0010_0000;
    if is_24h {
        decode_bcd(raw & 0b0011_1111)
    } else if is_pm {
        decode_bcd(raw & 0b0001_1111) + 12
    } else {
        decode_bcd(raw & 0b0001_1111)
    }
}

/// The day of the month in a date register.
pub fn decode_date(raw: u8) -> (r: u8)
    ensures
        r == date_value(raw),
{
    assert(raw & 0b0011_1111 == raw % 0x40) by (bit_vector);
    decode_bcd(raw & 0b0011_1111)
}

/// The month in a month register.
pub fn decode_month(raw: u8) -> (r: u8)
    ensures
        r == month_value(raw),
{
    assert(raw & 0b0001_1111 == raw % 0x20) by (bit_vector);
    decode_bcd(raw & 0b0001_1111)
}

/// The day of the week in a day register.
pub fn decode_day(raw: u8) -> (r: u8)
    ensures
        r == day_value(raw),
{
    assert(raw & 0b0000_0111 == raw % 0x08) by (bit_vector);
    decode_bcd(raw & 0b0000_0111)
}

/// The year within the century in a year register.
pub fn decode_year(raw: u8) -> (r: u8)
    ensures
        r == year_value(raw),
{
    decode_bcd(raw)
}

/// The byte to write to the seconds register to start or stop the
/// oscillator without touching the seconds.
pub fn with_running(raw: u8, is_running: bool) -> (r: u8)
    ensures
        r == halt_changed(raw, is_running),
{
    assert(raw & 0b0111_1111 == raw % 0x80) by (bit_vector);
    assert(raw | 0b1000_0000 == (raw % 0x80) + 0x80) by (bit_vector);
    if is_running {
        raw & 0b0111_1111
    } else {
        raw | 0b1000_0000
    }
}

/// The byte to write to the seconds register to set the seconds without
/// starting or stopping the oscillator.
pub fn with_seconds(current: u8, seconds: u8) -> (r: u8)
    ensures
        r == seconds_changed(current, seconds),
{
    let bcd: u8 = encode_bcd(seconds);
    let encoded: u8 = bcd & 0b0111_1111;
    assert(bcd & 0b0111_1111 == bcd % 0x80) by (bit_vector);
    assert((encoded | 0b1000_0000) == encoded + 0x80) by (bit_vector)
        requires
            encoded < 0x80,
    ;
    if clock_running(current) {
        encoded
    } else {
        encoded | 0b1000_0000
    }
}

/// Starting or stopping the oscillator does what was asked and leaves the
/// low seven bits of the seconds register as they were.
pub proof fn lemma_halt_changed(raw: u8, running: bool)
    ensures
        running_value(halt_changed(raw, running)) == running,
        halt_changed(raw, running) % 0x80 == raw % 0x80,
        seconds_value(halt_changed(raw, running)) == seconds_value(raw),
        running_value(raw) == running ==> halt_changed(raw, running) == raw,
{
}

/// Setting the seconds leaves the oscillator as it was, and the seconds read
/// back are the seconds set, as long as their tens digit fits beside the flag.
pub proof fn lemma_seconds_changed(current: u8, seconds: u8)
    ensures
        running_value(seconds_changed(current, seconds)) == running_value(current),
        seconds <= 79 ==> seconds_value(seconds_changed(current, seconds)) == seconds,
{
    if seconds <= 79 {
        lemma_decode_encode(seconds);
        let packed = bcd_of(seconds);
        assert(seconds / 10 <= 7);
        assert(packed < 0x80);
        assert(packed % 0x80 == packed);
        assert((packed + 0x80) % 0x80 == packed);
    }
}

} // verus!
