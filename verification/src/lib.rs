//! Bit-banged driver for the DS1302 real-time clock on a three-wire serial bus.

pub mod agreement;
pub mod bcd;
pub mod bitorder;
pub mod bus;
pub mod chip;
pub mod driver;
pub mod error;
pub mod pace;
pub mod protocol;
pub mod record;
pub mod registers;
pub mod shape;
pub mod timing;

pub use crate::bus::{DataLine, Delay, LineFault, OutputLine};
pub use crate::driver::Ds1302;
pub use crate::error::ReadWriteError;
