//! From a time to wait to a number of core clock cycles, for a busy-wait
//! that counts cycles. The count is rounded up: a wait may last longer than
//! asked for, never shorter.

use vstd::prelude::*;

verus! {

/// The units of a wait: how many of each make a second.
pub const MILLIS_PER_SECOND: u32 = 1_000;

pub const MICROS_PER_SECOND: u32 = 1_000_000;

pub const NANOS_PER_SECOND: u32 = 1_000_000_000;

/// The least number of cycles of a clock of `hz` cycles a second that last
/// as long as `amount` units of which `per_second` make a second.
pub open spec fn cycles_needed(hz: u32, amount: u32, per_second: u32) -> int {
    (hz * amount + per_second - 1) / (per_second as int)
}

/// That number, or the largest count there is where it does not fit.
pub open spec fn cycles_counted(hz: u32, amount: u32, per_second: u32) -> u32 {
    if cycles_needed(hz, amount, per_second) <= u32::MAX {
        cycles_needed(hz, amount, per_second) as u32
    } else {
        u32::MAX
    }
}

/// The cycles to count for `amount` units of time, `per_second` of which
/// make a second, on a core clock of `hz`.
fn cycles_for(hz: u32, amount: u32, per_second: u32) -> (r: u32)
    requires
        per_second > 0,
    ensures
        r == cycles_counted(hz, amount, per_second),
{
    assert(hz * amount <= 0xffff_ffff * 0xffff_ffff) by (nonlinear_arith)
        requires
            hz <= 0xffff_ffff,
            amount <= 0xffff_ffff,
    ;
    let total: u64 = hz as u64 * amount as u64;
    let cycles: u64 = (total + (per_second as u64 - 1)) / per_second as u64;
    if cycles > u32::MAX as u64 {
        u32::MAX
    } else {
        cycles as u32
    }
}

/// The cycles to count for a wait in milliseconds.
pub fn cycles_for_millis(hz: u32, millis: u32) -> (r: u32)
    ensures
        r == cycles_counted(hz, millis, MILLIS_PER_SECOND),
{
    cycles_for(hz, millis, MILLIS_PER_SECOND)
}

/// The cycles to count for a wait in microseconds.
pub fn cycles_for_micros(hz: u32, micros: u32) -> (r: u32)
    ensures
        r == cycles_counted(hz, micros, MICROS_PER_SECOND),
{
    cycles_for(hz, micros, MICROS_PER_SECOND)
}

/// The cycles to count for a wait in nanoseconds.
pub fn cycles_for_nanos(hz: u32, nanos: u32) -> (r: u32)
    ensures
        r == cycles_counted(hz, nanos, NANOS_PER_SECOND),
{
    cycles_for(hz, nanos, NANOS_PER_SECOND)
}

/// The count is enough and no more than enough: that many cycles last at
/// least the time asked for, and one cycle fewer would not. Where the count
/// does not fit it stops at the largest there is, which is then too few.
pub proof fn lemma_cycles_cover(hz: u32, amount: u32, per_second: u32)
    requires
        per_second > 0,
    ensures
        cycles_needed(hz, amount, per_second) * per_second >= hz * amount,
        (cycles_needed(hz, amount, per_second) - 1) * per_second < hz * amount,
        cycles_needed(hz, amount, per_second) >= 0,
        cycles_needed(hz, amount, per_second) <= u32::MAX ==> cycles_counted(hz, amount, per_second)
            * per_second >= hz * amount,
        cycles_counted(hz, amount, per_second) <= cycles_needed(hz, amount, per_second),
{
    let total: int = hz * amount;
    let p: int = per_second as int;
    let c = (total + p - 1) / p;
    assert(total >= 0) by (nonlinear_arith)
        requires
            total == hz * amount,
    ;
    vstd::arithmetic::div_mod::lemma_fundamental_div_mod(total + p - 1, p);
    vstd::arithmetic::div_mod::lemma_mod_bound(total + p - 1, p);
    assert(total + p - 1 == p * c + (total + p - 1) % p);
    assert(c * p == p * c) by (nonlinear_arith);
    assert((c - 1) * p == c * p - p) by (nonlinear_arith);
    assert(c >= 0) by (nonlinear_arith)
        requires
            p * c >= 0 - p + 1,
            p > 0,
    ;
}

} // verus!
