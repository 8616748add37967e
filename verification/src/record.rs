//! Records of bus events: what it means that a record is a run of a script,
//! and what a run says about the result of the operation that made it.

use vstd::prelude::*;
use crate::bus::{BusEvent, BusOp, LineMode, Reply};
use crate::error::ReadWriteError;

verus! {

/// `log` records a run of `script`: the operations in order, each answered as
/// it can be, nothing after the first refusal, and nothing missing unless a
/// refusal ended it.
pub open spec fn is_run(script: Seq<BusOp>, log: Seq<BusEvent>) -> bool {
    &&& log.len() <= script.len()
    &&& forall|i: int| 0 <= i < log.len() ==> (#[trigger] log[i]).op == script[i]
    &&& forall|i: int| 0 <= i < log.len() ==> (#[trigger] log[i]).well_formed()
    &&& forall|i: int| 0 <= i < log.len() - 1 ==> !(#[trigger] log[i]).failed()
    &&& log.len() < script.len() ==> log.len() > 0 && log.last().failed()
}

/// `log` records the start of a run of `script` that is still under way:
/// the operations in order, each answered as it can be, none refused.
pub open spec fn in_progress(script: Seq<BusOp>, log: Seq<BusEvent>) -> bool {
    &&& log.len() <= script.len()
    &&& forall|i: int| 0 <= i < log.len() ==> (#[trigger] log[i]).op == script[i]
    &&& forall|i: int| 0 <= i < log.len() ==> (#[trigger] log[i]).well_formed()
    &&& forall|i: int| 0 <= i < log.len() ==> !(#[trigger] log[i]).failed()
}

/// The error that a record ends in, if it ends in a refusal.
pub open spec fn fault_of(log: Seq<BusEvent>) -> Option<ReadWriteError> {
    if log.len() > 0 && log.last().failed() {
        Some(log.last().op.fault_kind())
    } else {
        None
    }
}

/// The levels sampled, in the order they were sampled.
pub open spec fn sampled(log: Seq<BusEvent>) -> Seq<bool>
    decreases log.len(),
{
    if log.len() == 0 {
        Seq::empty()
    } else {
        match log.last().reply {
            Reply::Level(b) => sampled(log.drop_last()).push(b),
            _ => sampled(log.drop_last()),
        }
    }
}

/// The byte whose bit `i` is `bits[i]`, for the first eight entries.
pub open spec fn byte_of_bits(bits: Seq<bool>) -> u8 {
    byte_of_low_bits(bits, 8)
}

/// The byte whose bit `i` is `bits[i]` below bit `n`, and clear from there up.
pub open spec fn byte_of_low_bits(bits: Seq<bool>, n: nat) -> u8
    decreases n,
{
    if n == 0 {
        0
    } else if bits[n - 1] {
        byte_of_low_bits(bits, (n - 1) as nat) | (1u8 << ((n - 1) as u8))
    } else {
        byte_of_low_bits(bits, (n - 1) as nat)
    }
}

/// The data line after one more event.
pub open spec fn mode_step(mode: LineMode, op: BusOp) -> LineMode {
    match op {
        BusOp::Release => LineMode::Input,
        BusOp::Reclaim => LineMode::Output,
        _ => mode,
    }
}

/// Who holds the data line after the recorded events, if `mode` did before.
pub open spec fn mode_after(mode: LineMode, log: Seq<BusEvent>) -> LineMode
    decreases log.len(),
{
    if log.len() == 0 {
        mode
    } else {
        match log.last().op {
            BusOp::Release => LineMode::Input,
            BusOp::Reclaim => LineMode::Output,
            _ => mode_after(mode, log.drop_last()),
        }
    }
}

/// What an operation that hands nothing back returns after these events.
pub open spec fn unit_result(log: Seq<BusEvent>) -> Result<(), ReadWriteError> {
    match fault_of(log) {
        Some(e) => Err(e),
        None => Ok(()),
    }
}

/// What an operation that hands back one level returns after these events:
/// the first sample, unless a line refused.
pub open spec fn bit_result(log: Seq<BusEvent>) -> Result<bool, ReadWriteError> {
    match fault_of(log) {
        Some(e) => Err(e),
        None => Ok(sampled(log)[0]),
    }
}

/// What an operation that hands back a byte returns after these events: the
/// byte made of the first eight samples, unless a line refused.
pub open spec fn byte_result(log: Seq<BusEvent>) -> Result<u8, ReadWriteError> {
    match fault_of(log) {
        Some(e) => Err(e),
        None => Ok(byte_of_bits(sampled(log))),
    }
}

/// What was added to a record between two moments.
pub open spec fn since(before: Seq<BusEvent>, after: Seq<BusEvent>) -> Seq<BusEvent> {
    after.skip(before.len() as int)
}

/// `after` is `before` with more events behind it.
pub open spec fn extends(before: Seq<BusEvent>, after: Seq<BusEvent>) -> bool {
    before.len() <= after.len() && after.take(before.len() as int) == before
}

/// A record that did not grow.
pub proof fn lemma_since_same(log: Seq<BusEvent>)
    ensures
        extends(log, log),
        since(log, log) == Seq::<BusEvent>::empty(),
{
    assert(log.take(log.len() as int) =~= log);
    assert(since(log, log) =~= Seq::<BusEvent>::empty());
}

/// One more event behind a record.
pub proof fn lemma_since_push(before: Seq<BusEvent>, event: BusEvent)
    ensures
        extends(before, before.push(event)),
        since(before, before.push(event)) == seq![event],
{
    assert(before.push(event).take(before.len() as int) =~= before);
    assert(since(before, before.push(event)) =~= seq![event]);
}

/// A record that grew twice grew by the two additions, one behind the other.
pub proof fn lemma_since_chain(first: Seq<BusEvent>, second: Seq<BusEvent>, third: Seq<BusEvent>)
    requires
        extends(first, second),
        extends(second, third),
    ensures
        extends(first, third),
        since(first, third) == since(first, second) + since(second, third),
{
    assert(third.take(first.len() as int) =~= second.take(first.len() as int));
    assert(since(first, third) =~= since(first, second) + since(second, third));
}

/// The next operation of a script was issued and answered. If the line
/// refused, the run is over and the record is a run of the script. If not,
/// the run is one event further, and complete once the script is used up.
pub proof fn lemma_step(
    script: Seq<BusOp>,
    mode: LineMode,
    start: Seq<BusEvent>,
    at: Seq<BusEvent>,
    event: BusEvent,
)
    requires
        extends(start, at),
        in_progress(script, since(start, at)),
        since(start, at).len() < script.len(),
        event.op == script[since(start, at).len() as int],
        event.well_formed(),
    ensures
        extends(start, at.push(event)),
        since(start, at.push(event)) == since(start, at).push(event),
        mode_after(mode, since(start, at.push(event))) == mode_step(
            mode_after(mode, since(start, at)),
            event.op,
        ),
        sampled(since(start, at.push(event))) == match event.reply {
            Reply::Level(b) => sampled(since(start, at)).push(b),
            _ => sampled(since(start, at)),
        },
        event.failed() ==> is_run(script, since(start, at.push(event))) && fault_of(
            since(start, at.push(event)),
        ) == Some(event.op.fault_kind()),
        !event.failed() ==> in_progress(script, since(start, at.push(event))),
        !event.failed() && since(start, at).len() + 1 == script.len() ==> is_run(
            script,
            since(start, at.push(event)),
        ) && fault_of(since(start, at.push(event))) is None,
{
    let d0 = since(start, at);
    let d1 = since(start, at.push(event));
    assert(at.push(event).take(start.len() as int) =~= at.take(start.len() as int));
    assert(d1 =~= d0.push(event));
    assert(d1.drop_last() =~= d0);
    assert(d1.last() == event);
    assert forall|i: int| 0 <= i < d1.len() implies (#[trigger] d1[i]).op == script[i]
        && d1[i].well_formed() by {
        if i < d0.len() {
            assert(d1[i] == d0[i]);
        }
    }
    assert forall|i: int| 0 <= i < d1.len() - 1 implies !(#[trigger] d1[i]).failed() by {
        assert(d1[i] == d0[i]);
    }
    if !event.failed() {
        assert forall|i: int| 0 <= i < d1.len() implies !(#[trigger] d1[i]).failed() by {
            if i < d0.len() {
                assert(d1[i] == d0[i]);
            }
        }
    }
}

/// A run that went through, followed by a run of what comes next, is a run
/// of the two scripts joined.
pub proof fn lemma_run_then(s1: Seq<BusOp>, s2: Seq<BusOp>, d1: Seq<BusEvent>, d2: Seq<BusEvent>)
    requires
        is_run(s1, d1),
        fault_of(d1) is None,
        is_run(s2, d2),
    ensures
        is_run(s1 + s2, d1 + d2),
        s2.len() > 0 ==> fault_of(d1 + d2) == fault_of(d2),
        s2.len() == 0 ==> d1 + d2 == d1,
{
    let s = s1 + s2;
    let d = d1 + d2;
    assert(d1.len() == s1.len());
    assert forall|i: int| 0 <= i < d.len() implies (#[trigger] d[i]).op == s[i] by {
        if i < d1.len() {
            assert(d[i] == d1[i]);
        } else {
            assert(d[i] == d2[i - d1.len()]);
        }
    }
    assert forall|i: int| 0 <= i < d.len() implies (#[trigger] d[i]).well_formed() by {
        if i < d1.len() {
            assert(d[i] == d1[i]);
        } else {
            assert(d[i] == d2[i - d1.len()]);
        }
    }
    assert forall|i: int| 0 <= i < d.len() - 1 implies !(#[trigger] d[i]).failed() by {
        if i < d1.len() {
            assert(d[i] == d1[i]);
            if i == d1.len() - 1 {
                assert(d1[i] == d1.last());
            }
        } else {
            assert(d[i] == d2[i - d1.len()]);
        }
    }
    if d2.len() > 0 {
        assert(d.last() == d2.last());
    }
    if s2.len() == 0 {
        assert(d =~= d1);
    }
}

/// A run that a refusal cut short is a run of any script that starts the
/// same way.
pub proof fn lemma_run_stop(script: Seq<BusOp>, rest: Seq<BusOp>, log: Seq<BusEvent>)
    requires
        is_run(script, log),
        fault_of(log) is Some,
    ensures
        is_run(script + rest, log),
{
}

/// A run that a refusal cut short is a run of any script that agrees with
/// the one it followed as far as that one goes.
pub proof fn lemma_run_cut(script: Seq<BusOp>, whole: Seq<BusOp>, log: Seq<BusEvent>)
    requires
        is_run(script, log),
        fault_of(log) is Some,
        script.len() <= whole.len(),
        forall|i: int| 0 <= i < script.len() ==> script[i] == whole[i],
    ensures
        is_run(whole, log),
{
}

/// The samples of two records joined are the samples of each, joined.
pub proof fn lemma_sampled_concat(d1: Seq<BusEvent>, d2: Seq<BusEvent>)
    ensures
        sampled(d1 + d2) == sampled(d1) + sampled(d2),
    decreases d2.len(),
{
    if d2.len() == 0 {
        assert(d1 + d2 =~= d1);
        assert(sampled(d1) + sampled(d2) =~= sampled(d1));
    } else {
        assert((d1 + d2).drop_last() =~= d1 + d2.drop_last());
        assert((d1 + d2).last() == d2.last());
        lemma_sampled_concat(d1, d2.drop_last());
        match d2.last().reply {
            Reply::Level(b) => {
                assert(sampled(d1 + d2) =~= sampled(d1) + sampled(d2));
            },
            _ => {},
        }
    }
}

/// The data line changes hands over two records joined as it does over the
/// first and then over the second.
pub proof fn lemma_mode_concat(mode: LineMode, d1: Seq<BusEvent>, d2: Seq<BusEvent>)
    ensures
        mode_after(mode, d1 + d2) == mode_after(mode_after(mode, d1), d2),
    decreases d2.len(),
{
    if d2.len() == 0 {
        assert(d1 + d2 =~= d1);
    } else {
        assert((d1 + d2).drop_last() =~= d1 + d2.drop_last());
        assert((d1 + d2).last() == d2.last());
        lemma_mode_concat(mode, d1, d2.drop_last());
    }
}

/// A run of a script that leaves the data line alone leaves it with whoever
/// held it.
pub proof fn lemma_mode_kept(mode: LineMode, script: Seq<BusOp>, log: Seq<BusEvent>)
    requires
        is_run(script, log),
        forall|i: int|
            0 <= i < script.len() ==> !(#[trigger] script[i] is Release) && !(script[i]
                is Reclaim),
    ensures
        mode_after(mode, log) == mode,
    decreases log.len(),
{
    if log.len() > 0 {
        let shorter = log.drop_last();
        assert forall|i: int| 0 <= i < shorter.len() implies (#[trigger] shorter[i]).op
            == script[i] && shorter[i].well_formed() && !shorter[i].failed() by {
            assert(shorter[i] == log[i]);
        }
        assert(is_run(script.take(shorter.len() as int), shorter));
        lemma_mode_kept(mode, script.take(shorter.len() as int), shorter);
        assert(log.last() == log[log.len() - 1]);
        assert(!(script[log.len() - 1] is Release));
    }
}

/// A run that went through and the run that came after it, seen from the
/// records taken before, between and after them.
pub proof fn lemma_then(
    done: Seq<BusOp>,
    next: Seq<BusOp>,
    mode: LineMode,
    start: Seq<BusEvent>,
    at: Seq<BusEvent>,
    now: Seq<BusEvent>,
)
    requires
        extends(start, at),
        is_run(done, since(start, at)),
        fault_of(since(start, at)) is None,
        extends(at, now),
        is_run(next, since(at, now)),
    ensures
        extends(start, now),
        since(start, now) == since(start, at) + since(at, now),
        is_run(done + next, since(start, now)),
        next.len() > 0 ==> fault_of(since(start, now)) == fault_of(since(at, now)),
        mode_after(mode, since(start, now)) == mode_after(
            mode_after(mode, since(start, at)),
            since(at, now),
        ),
        sampled(since(start, now)) == sampled(since(start, at)) + sampled(since(at, now)),
{
    lemma_since_chain(start, at, now);
    lemma_run_then(done, next, since(start, at), since(at, now));
    lemma_mode_concat(mode, since(start, at), since(at, now));
    lemma_sampled_concat(since(start, at), since(at, now));
}

/// Only the bits below `n` count towards the byte made of them.
pub proof fn lemma_low_bits_agree(a: Seq<bool>, b: Seq<bool>, n: nat)
    requires
        forall|i: int| 0 <= i < n ==> a[i] == b[i],
    ensures
        byte_of_low_bits(a, n) == byte_of_low_bits(b, n),
    decreases n,
{
    if n > 0 {
        lemma_low_bits_agree(a, b, (n - 1) as nat);
    }
}

} // verus!
