//! The handles that mark a scope, and what is kept for the end of the run.
//!
//! A handle is made when a scope begins and given back when it ends. Handles
//! are given back in the reverse of the order in which they were made; a log
//! in which they were not is refused when the report is made.

use crate::clock::now_nanos;
use crate::measure::{Measure, MeasureType};
use crate::profiler::{GlobalProfiler, ThreadProfiler};
use crate::report::{error_of, is_table, report_bytes, ReportError};
use crate::rows::Hierarchy;
use crate::timing::Timing;
use vstd::prelude::*;

verus! {

/// The handle of a scope that is being measured.
#[derive(Debug)]
pub struct ScopeGuard {}

impl ScopeGuard {
    /// Begins the scope `name` now in the log `thread`.
    pub fn new(thread: &mut ThreadProfiler, name: String) -> (guard: ScopeGuard)
        ensures
            final(thread)@.len() == old(thread)@.len() + 1,
            final(thread)@.drop_last() == old(thread)@,
            final(thread)@.last().ty == (MeasureType::Start { name }),
            final(thread).started() == old(thread).started(),
            final(thread).stopped() == old(thread).stopped(),
    {
        thread.push(name);
        ScopeGuard {  }
    }

    /// Begins the scope `name` at `time` in the log `thread`.
    pub fn new_at(thread: &mut ThreadProfiler, name: String, time: u64) -> (guard: ScopeGuard)
        ensures
            final(thread)@ == old(thread)@.push((Measure { ty: MeasureType::Start { name }, time })),
            final(thread).started() == old(thread).started(),
            final(thread).stopped() == old(thread).stopped(),
    {
        thread.push_at(name, time);
        ScopeGuard {  }
    }

    /// Ends the scope at `time`.
    pub fn stop_at(self, thread: &mut ThreadProfiler, time: u64)
        ensures
            final(thread)@ == old(thread)@.push((Measure { ty: MeasureType::End, time })),
            final(thread).started() == old(thread).started(),
            final(thread).stopped() == old(thread).stopped(),
    {
        thread.pop(time);
    }

    /// Ends the scope now.
    pub fn stop(self, thread: &mut ThreadProfiler)
        ensures
            final(thread)@.len() == old(thread)@.len() + 1,
            final(thread)@.drop_last() == old(thread)@,
            final(thread)@.last().ty == MeasureType::End,
            final(thread).started() == old(thread).started(),
            final(thread).stopped() == old(thread).stopped(),
    {
        thread.pop(now_nanos());
        assert(thread@.drop_last() =~= old(thread)@);
    }
}

/// A value whose lifetime is measured as a scope: the scope begins when the
/// value is wrapped and ends when it is taken out.
#[derive(Debug)]
pub struct Guard<T>(pub T);

impl<T> Guard<T> {
    /// Wraps `value` and begins the scope `name` now in the log `thread`.
    pub fn new(value: T, thread: &mut ThreadProfiler, name: String) -> (guard: Guard<T>)
        ensures
            guard.0 == value,
            final(thread)@.len() == old(thread)@.len() + 1,
            final(thread)@.drop_last() == old(thread)@,
            final(thread)@.last().ty == (MeasureType::Start { name }),
            final(thread).started() == old(thread).started(),
            final(thread).stopped() == old(thread).stopped(),
    {
        thread.push(name);
        Guard(value)
    }

    /// Ends the scope now and hands the value out.
    pub fn into_inner(self, thread: &mut ThreadProfiler) -> (value: T)
        ensures
            value == self.0,
            final(thread)@.len() == old(thread)@.len() + 1,
            final(thread)@.drop_last() == old(thread)@,
            final(thread)@.last().ty == MeasureType::End,
            final(thread).started() == old(thread).started(),
            final(thread).stopped() == old(thread).stopped(),
    {
        thread.pop(now_nanos());
        assert(thread@.drop_last() =~= old(thread)@);
        self.0
    }

    /// The value.
    pub fn as_ref(&self) -> (value: &T)
        ensures
            *value == self.0,
    {
        &self.0
    }
}

/// What is kept until the run ends: where the report goes, and what is to be
/// done with that place once the report is there.
pub struct ProfiDrop<W, F>(pub W, pub F);

impl<W, F> ProfiDrop<W, F> {
    /// Keeps the sink `to` and the hook `ondrop`.
    pub fn new(to: W, ondrop: F) -> (kept: Self)
        ensures
            kept.0 == to,
            kept.1 == ondrop,
    {
        Self(to, ondrop)
    }
}

/// What is kept until the run ends: how to get the place where the report
/// goes.
#[verifier::reject_recursive_types(W)]
pub struct MiniprofDrop<W, F: Fn() -> W>(pub F);

impl<W, F: Fn() -> W> MiniprofDrop<W, F> {
    /// Keeps `to`, which gives the sink when it is called.
    pub fn new(to: F) -> (kept: Self)
        ensures
            kept.0 == to,
    {
        Self(to)
    }
}

/// Appends the report on the logs that `global` holds to `to`. Where no
/// table can be made, `to` stays as it is.
pub fn print_timings_to(global: &GlobalProfiler, mode: Hierarchy, to: &mut Vec<u8>) -> (result:
    Result<(), ReportError>)
    ensures
        match result {
            Ok(()) => error_of(global.logs(), mode).is_none() && exists|timings: Seq<Timing>|
                #![trigger is_table(timings, global.logs(), mode)]
                is_table(timings, global.logs(), mode) && final(to)@ == old(to)@ + report_bytes(
                    timings,
                ),
            Err(e) => error_of(global.logs(), mode) == Some(e) && final(to)@ == old(to)@,
        },
{
    global.print_timings(mode, to)
}

} // verus!
