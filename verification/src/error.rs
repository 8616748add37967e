//! What can go wrong on the bus.

use vstd::prelude::*;

verus! {

/// The line whose failure ended a transaction.
#[derive(Debug, Clone, Copy, PartialEq, Eq, Structural)]
pub enum ReadWriteError {
    /// The chip-select line could not be driven.
    ChipSelectError,
    /// The clock line could not be driven.
    ClockError,
    /// The data line could not be sampled.
    ReadError,
    /// The data line could not be driven.
    WriteError,
}

} // verus!
