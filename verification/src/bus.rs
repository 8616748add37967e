//! The three wires and the clock that times them, as the driver sees them:
//! capabilities to implement once per platform, and the record of what the
//! driver asked of them.

use vstd::prelude::*;
use crate::error::ReadWriteError;

verus! {

/// A line refused an operation.
#[derive(Debug, Clone, Copy, PartialEq, Eq, Structural)]
pub struct LineFault;

/// A line that the host drives: the serial clock, or chip-select.
pub trait OutputLine {
    /// Drives the line high.
    fn set_high(&mut self) -> Result<(), LineFault>;

    /// Drives the line low.
    fn set_low(&mut self) -> Result<(), LineFault>;
}

/// The data line. The host drives it for the command byte and for data it
/// writes, and samples it for data it reads. With one shared wire `release`
/// and `reclaim` turn the pin around; with two dedicated wires they have
/// nothing to do.
pub trait DataLine {
    /// Drives the line to the given level. Called only while the host holds
    /// the line.
    fn set_state(&mut self, high: bool) -> Result<(), LineFault>;

    /// Samples the line. Called only between `release` and `reclaim`.
    fn is_high(&self) -> Result<bool, LineFault>;

    /// Stops driving, so that the chip can.
    fn release(&mut self);

    /// Takes the line back for driving.
    fn reclaim(&mut self);
}

/// A calibrated busy-wait. Each call must last at least the time asked for:
/// the bus has no way to notice one that returns early.
pub trait Delay {
    /// Returns after at least this many microseconds.
    fn delay_micro(&self, micros: u32);

    /// Returns after at least this many nanoseconds.
    fn delay_nano(&self, nanos: u32);
}

/// Who holds the data line.
#[derive(Debug, Clone, Copy, PartialEq, Eq, Structural)]
pub enum LineMode {
    /// The host drives it.
    Output,
    /// The host listens.
    Input,
}

/// One thing the driver asks of the bus.
pub enum BusOp {
    /// Drive the serial clock to this level.
    Clock(bool),
    /// Drive chip-select to this level.
    ChipSelect(bool),
    /// Drive the data line to this level.
    DataOut(bool),
    /// Sample the data line.
    DataIn,
    /// Hand the data line to the chip.
    Release,
    /// Take the data line back.
    Reclaim,
    /// Wait at least this many microseconds.
    WaitMicros(u32),
    /// Wait at least this many nanoseconds.
    WaitNanos(u32),
}

/// How the bus answered.
pub enum Reply {
    /// Done.
    Ack,
    /// The level sampled.
    Level(bool),
    /// The line refused.
    Fault,
}

/// An operation together with its answer.
pub struct BusEvent {
    pub op: BusOp,
    pub reply: Reply,
}

impl BusOp {
    /// Whether a line is involved that can refuse.
    pub open spec fn can_fail(self) -> bool {
        self is Clock || self is ChipSelect || self is DataOut || self is DataIn
    }

    /// The error that a refusal of this operation is reported as.
    pub open spec fn fault_kind(self) -> ReadWriteError {
        match self {
            BusOp::ChipSelect(_) => ReadWriteError::ChipSelectError,
            BusOp::DataIn => ReadWriteError::ReadError,
            BusOp::DataOut(_) => ReadWriteError::WriteError,
            _ => ReadWriteError::ClockError,
        }
    }
}

impl BusEvent {
    /// A drive, a wait or a change of hands, served or refused.
    pub open spec fn answered(op: BusOp, served: bool) -> BusEvent {
        BusEvent {
            op,
            reply: if served {
                Reply::Ack
            } else {
                Reply::Fault
            },
        }
    }

    /// A sample, with the level it found or refused.
    pub open spec fn sample(found: Option<bool>) -> BusEvent {
        BusEvent {
            op: BusOp::DataIn,
            reply: match found {
                Some(level) => Reply::Level(level),
                None => Reply::Fault,
            },
        }
    }

    /// The answer is one that the operation can get: a level only for a sample,
    /// a refusal only from a line.
    pub open spec fn well_formed(self) -> bool {
        match self.reply {
            Reply::Ack => !(self.op is DataIn),
            Reply::Level(_) => self.op is DataIn,
            Reply::Fault => self.op.can_fail(),
        }
    }

    /// The line refused.
    pub open spec fn failed(self) -> bool {
        self.reply is Fault
    }
}

} // verus!
