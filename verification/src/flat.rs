//! A stopwatch for one named stretch of code, for use without logs and
//! forests: it is started with a name and gives the name back with the time
//! that has passed.

use crate::clock::now_nanos;
use crate::measure::{duration_between, span};
use vstd::prelude::*;

verus! {

/// A running stopwatch.
#[derive(Debug)]
pub struct __LocalProfilerGuard {
    name: String,
    start: u64,
}

impl __LocalProfilerGuard {
    /// The name that the stopwatch was started with.
    pub closed spec fn name(&self) -> String {
        self.name
    }

    /// The clock reading at which it was started.
    pub closed spec fn started(&self) -> u64 {
        self.start
    }

    /// Starts a stopwatch named `name` now.
    pub fn new(name: String) -> (guard: Self)
        ensures
            guard.name() == name,
    {
        Self::starting_at(name, now_nanos())
    }

    /// A stopwatch named `name` that was started at `start`.
    pub fn starting_at(name: String, start: u64) -> (guard: Self)
        ensures
            guard.name() == name,
            guard.started() == start,
    {
        __LocalProfilerGuard { name, start }
    }

    /// Stops the stopwatch at `now`: its name, and the time from its start
    /// to `now`, zero where `now` lies before the start.
    pub fn stop_at(self, now: u64) -> (taken: (String, u64))
        ensures
            taken.0 == self.name(),
            taken.1 == span(self.started(), now),
    {
        let elapsed = duration_between(self.start, now);
        (self.name, elapsed)
    }

    /// Stops the stopwatch now: its name, and the time since its start.
    pub fn stop(self) -> (taken: (String, u64))
        ensures
            taken.0 == self.name(),
    {
        self.stop_at(now_nanos())
    }
}

} // verus!
