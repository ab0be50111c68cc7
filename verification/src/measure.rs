//! The events that a thread records: a scope begins, a scope ends.

use vstd::prelude::*;

verus! {

/// What happened: a named scope was entered, or the scope entered last and
/// still open was left.
#[derive(Debug)]
pub enum MeasureType {
    Start { name: String },
    End,
}

/// One event of a thread's log, with the clock reading in nanoseconds.
#[derive(Debug)]
pub struct Measure {
    pub ty: MeasureType,
    pub time: u64,
}

impl Measure {
    /// The event that opens the scope `name` at `time`.
    pub fn start(name: String, time: u64) -> (m: Measure)
        ensures
            m.ty == (MeasureType::Start { name }),
            m.time == time,
    {
        Measure { ty: MeasureType::Start { name }, time }
    }

    /// The event that closes the innermost open scope at `time`.
    pub fn end(time: u64) -> (m: Measure)
        ensures
            m.ty == MeasureType::End,
            m.time == time,
    {
        Measure { ty: MeasureType::End, time }
    }

    /// Whether this event opens a scope.
    pub fn is_start(&self) -> (b: bool)
        ensures
            b == (self.ty is Start),
    {
        match self.ty {
            MeasureType::Start { .. } => true,
            MeasureType::End => false,
        }
    }
}

/// The time from `start` to `end`, zero where `end` lies before `start`.
pub open spec fn span(start: u64, end: u64) -> u64 {
    if end >= start {
        (end - start) as u64
    } else {
        0
    }
}

/// Computes [`span`].
pub fn duration_between(start: u64, end: u64) -> (d: u64)
    ensures
        d == span(start, end),
{
    if end >= start {
        end - start
    } else {
        0
    }
}

} // verus!
