//! The log that each thread keeps for itself, and the registry in which the
//! logs of all threads come together once the threads are done.

use crate::clock::now_nanos;
use crate::measure::{duration_between, span, Measure, MeasureType};
use crate::report::{error_of, is_table, print_timings, report_bytes, ReportError};
use crate::rows::Hierarchy;
use crate::timing::Timing;
use vstd::prelude::*;

verus! {

/// The registry of all threads: how many threads are still at work, the
/// reporting thread among them, and the logs of those that are done, each
/// with the time that its thread ran.
#[derive(Debug)]
pub struct GlobalProfiler {
    threads: usize,
    measures: Vec<(u64, Vec<Measure>)>,
}

impl GlobalProfiler {
    /// The number of threads that have not handed in their log, the
    /// reporting thread counted in.
    pub closed spec fn threads(&self) -> nat {
        self.threads as nat
    }

    /// The logs handed in so far, that of the reporting thread first.
    pub closed spec fn logs(&self) -> Seq<(u64, Vec<Measure>)> {
        self.measures@
    }

    /// The registry of a run in which only the reporting thread is at work
    /// and nothing has been handed in.
    pub fn new() -> (global: GlobalProfiler)
        ensures
            global.threads() == 1,
            global.logs() == Seq::<(u64, Vec<Measure>)>::empty(),
    {
        GlobalProfiler { threads: 1, measures: Vec::new() }
    }

    /// Counts one more thread at work.
    pub fn register_thread(&mut self)
        requires
            old(self).threads() < usize::MAX,
        ensures
            final(self).threads() == old(self).threads() + 1,
            final(self).logs() == old(self).logs(),
    {
        self.threads = self.threads + 1;
    }

    /// Takes in the log of a thread that is done, with the time that the
    /// thread ran.
    ///
    /// An empty log is not kept. With `main_thread` the log goes to the front
    /// and the count stays as it is: this is how the reporting thread hands
    /// in its log before the report. Without it the log goes to the back and
    /// one thread is taken off the count: this is how a worker hands in its
    /// log, and how the reporting thread, whose log is empty by then, takes
    /// itself off the count after the report.
    pub fn finalize_thread(&mut self, elapsed: u64, measures: Vec<Measure>, main_thread: bool)
        requires
            !main_thread ==> old(self).threads() >= 1,
        ensures
            final(self).threads() == if main_thread {
                old(self).threads()
            } else {
                (old(self).threads() - 1) as nat
            },
            final(self).logs() == if measures@.len() == 0 {
                old(self).logs()
            } else if main_thread {
                old(self).logs().insert(0, (elapsed, measures))
            } else {
                old(self).logs().push((elapsed, measures))
            },
    {
        if measures.len() > 0 {
            if main_thread {
                self.measures.insert(0, (elapsed, measures));
            } else {
                self.measures.push((elapsed, measures));
            }
        }
        if !main_thread {
            self.threads = self.threads - 1;
        }
    }

    /// Whether every thread but the reporting one has handed in its log, so
    /// that the report can be made.
    pub fn is_quiescent(&self) -> (quiet: bool)
        ensures
            quiet == (self.threads() <= 1),
    {
        self.threads <= 1
    }

    /// The number of threads still at work.
    pub fn active_threads(&self) -> (n: usize)
        ensures
            n == self.threads(),
    {
        self.threads
    }

    /// The logs handed in so far.
    pub fn finished(&self) -> (logs: &Vec<(u64, Vec<Measure>)>)
        ensures
            logs@ == self.logs(),
    {
        &self.measures
    }

    /// Appends the report on the logs handed in so far to `to`. Where no
    /// table can be made, `to` stays as it is.
    pub fn print_timings(&self, mode: Hierarchy, to: &mut Vec<u8>) -> (result: Result<
        (),
        ReportError,
    >)
        ensures
            match result {
                Ok(()) => error_of(self.logs(), mode).is_none() && exists|timings: Seq<Timing>|
                    #![trigger is_table(timings, self.logs(), mode)]
                    is_table(timings, self.logs(), mode) && final(to)@ == old(to)@ + report_bytes(
                        timings,
                    ),
                Err(e) => error_of(self.logs(), mode) == Some(e) && final(to)@ == old(to)@,
            },
    {
        print_timings(&self.measures, mode, to)
    }
}

/// The log of one thread: its events in the order in which they happened,
/// the time at which the thread was first seen, and how long it ran once
/// that has been settled.
#[derive(Debug)]
pub struct ThreadProfiler {
    measures: Vec<Measure>,
    thread_start: u64,
    thread_time: Option<u64>,
}

impl View for ThreadProfiler {
    type V = Seq<Measure>;

    /// The events recorded so far.
    closed spec fn view(&self) -> Seq<Measure> {
        self.measures@
    }
}

impl ThreadProfiler {
    /// The time at which the thread was first seen.
    pub closed spec fn started(&self) -> u64 {
        self.thread_start
    }

    /// How long the thread ran, once settled.
    pub closed spec fn stopped(&self) -> Option<u64> {
        self.thread_time
    }

    /// How long the thread has run at `now`: the time that was settled, or
    /// the time since it was first seen.
    pub open spec fn elapsed_at(&self, now: u64) -> u64 {
        match self.stopped() {
            Some(t) => t,
            None => span(self.started(), now),
        }
    }

    /// An empty log of a thread first seen at `thread_start`.
    pub fn starting_at(thread_start: u64) -> (thread: ThreadProfiler)
        ensures
            thread@ == Seq::<Measure>::empty(),
            thread.started() == thread_start,
            thread.stopped().is_none(),
    {
        ThreadProfiler { measures: Vec::new(), thread_start, thread_time: None }
    }

    /// An empty log of a thread first seen now, and the thread counted as at
    /// work in `global`.
    pub fn new(global: &mut GlobalProfiler) -> (thread: ThreadProfiler)
        requires
            old(global).threads() < usize::MAX,
        ensures
            thread@ == Seq::<Measure>::empty(),
            thread.stopped().is_none(),
            final(global).threads() == old(global).threads() + 1,
            final(global).logs() == old(global).logs(),
    {
        global.register_thread();
        Self::starting_at(now_nanos())
    }

    /// An empty log of the reporting thread, first seen now. The registry
    /// counts that thread from the start, so nothing is counted here.
    pub fn reporting() -> (thread: ThreadProfiler)
        ensures
            thread@ == Seq::<Measure>::empty(),
            thread.stopped().is_none(),
    {
        Self::starting_at(now_nanos())
    }

    /// Records that the scope `name` was entered at `time`.
    pub fn push_at(&mut self, name: String, time: u64)
        ensures
            final(self)@ == old(self)@.push((Measure { ty: MeasureType::Start { name }, time })),
            final(self).started() == old(self).started(),
            final(self).stopped() == old(self).stopped(),
    {
        self.measures.push(Measure { ty: MeasureType::Start { name }, time });
    }

    /// Records that the scope `name` is entered now.
    pub fn push(&mut self, name: String)
        ensures
            final(self)@.len() == old(self)@.len() + 1,
            final(self)@.drop_last() == old(self)@,
            final(self)@.last().ty == (MeasureType::Start { name }),
            final(self).started() == old(self).started(),
            final(self).stopped() == old(self).stopped(),
    {
        self.push_at(name, now_nanos());
        assert(self@.drop_last() =~= old(self)@);
    }

    /// Records that the innermost open scope was left at `time`.
    pub fn pop(&mut self, time: u64)
        ensures
            final(self)@ == old(self)@.push((Measure { ty: MeasureType::End, time })),
            final(self).started() == old(self).started(),
            final(self).stopped() == old(self).stopped(),
    {
        self.measures.push(Measure { ty: MeasureType::End, time });
    }

    /// Settles at `now` how long the thread ran, unless that is settled.
    pub fn set_thread_time_at(&mut self, now: u64)
        ensures
            final(self).stopped() == Some(old(self).elapsed_at(now)),
            final(self)@ == old(self)@,
            final(self).started() == old(self).started(),
    {
        if self.thread_time.is_none() {
            self.thread_time = Some(duration_between(self.thread_start, now));
        }
    }

    /// Settles now how long the thread ran, unless that is settled.
    pub fn set_thread_time(&mut self)
        ensures
            final(self).stopped().is_some(),
            old(self).stopped().is_some() ==> final(self).stopped() == old(self).stopped(),
            final(self)@ == old(self)@,
            final(self).started() == old(self).started(),
    {
        self.set_thread_time_at(now_nanos());
    }

    /// How long the thread has run at `now`.
    pub fn get_thread_time_at(&self, now: u64) -> (elapsed: u64)
        ensures
            elapsed == self.elapsed_at(now),
    {
        match self.thread_time {
            Some(t) => t,
            None => duration_between(self.thread_start, now),
        }
    }

    /// How long the thread has run by now.
    pub fn get_thread_time(&self) -> (elapsed: u64)
        ensures
            self.stopped() matches Some(t) ==> elapsed == t,
    {
        self.get_thread_time_at(now_nanos())
    }

    /// Ends the log at `now`: hands out how long the thread ran and its
    /// events, and leaves the log empty.
    pub fn finalize_at(&mut self, now: u64) -> (flushed: (u64, Vec<Measure>))
        ensures
            flushed.0 == old(self).elapsed_at(now),
            flushed.1@ == old(self)@,
            final(self)@ == Seq::<Measure>::empty(),
            final(self).started() == old(self).started(),
            final(self).stopped() == old(self).stopped(),
    {
        let elapsed = self.get_thread_time_at(now);
        let mut measures: Vec<Measure> = Vec::new();
        measures.append(&mut self.measures);
        (elapsed, measures)
    }

    /// Ends the log at `now` and hands it to `global`, as the log of the
    /// reporting thread where `main_thread` says so.
    pub fn manual_drop_at(&mut self, global: &mut GlobalProfiler, main_thread: bool, now: u64)
        requires
            !main_thread ==> old(global).threads() >= 1,
        ensures
            final(self)@ == Seq::<Measure>::empty(),
            final(self).started() == old(self).started(),
            final(self).stopped() == old(self).stopped(),
            final(global).threads() == if main_thread {
                old(global).threads()
            } else {
                (old(global).threads() - 1) as nat
            },
            final(global).logs().len() == old(global).logs().len() + if old(self)@.len() == 0 {
                0int
            } else {
                1int
            },
            old(self)@.len() > 0 ==> {
                let at = if main_thread {
                    0
                } else {
                    old(global).logs().len() as int
                };
                &&& final(global).logs()[at].0 == old(self).elapsed_at(now)
                &&& final(global).logs()[at].1@ == old(self)@
                &&& final(global).logs().remove(at) == old(global).logs()
            },
            old(self)@.len() == 0 ==> final(global).logs() == old(global).logs(),
    {
        let (elapsed, measures) = self.finalize_at(now);
        let ghost handed = (elapsed, measures);
        global.finalize_thread(elapsed, measures, main_thread);
        proof {
            if old(self)@.len() > 0 {
                if main_thread {
                    assert(old(global).logs().insert(0, handed).remove(0) =~= old(global).logs());
                } else {
                    assert(old(global).logs().push(handed).remove(old(global).logs().len() as int)
                        =~= old(global).logs());
                }
            }
        }
    }

    /// Ends the log now and hands it to `global`, as the log of the
    /// reporting thread where `main_thread` says so. Returns whether a
    /// thread that waits for the others has to be woken: whether the count
    /// of threads went down.
    pub fn manual_drop(&mut self, global: &mut GlobalProfiler, main_thread: bool) -> (notify: bool)
        requires
            !main_thread ==> old(global).threads() >= 1,
        ensures
            notify == !main_thread,
            final(self)@ == Seq::<Measure>::empty(),
            final(global).threads() == if main_thread {
                old(global).threads()
            } else {
                (old(global).threads() - 1) as nat
            },
            old(self)@.len() == 0 ==> final(global).logs() == old(global).logs(),
            old(self)@.len() > 0 ==> {
                let at = if main_thread {
                    0
                } else {
                    old(global).logs().len() as int
                };
                &&& final(global).logs().len() == old(global).logs().len() + 1
                &&& final(global).logs()[at].1@ == old(self)@
                &&& final(global).logs().remove(at) == old(global).logs()
                &&& old(self).stopped() matches Some(t) ==> final(global).logs()[at].0 == t
            },
    {
        self.manual_drop_at(global, main_thread, now_nanos());
        !main_thread
    }
}

} // verus!
