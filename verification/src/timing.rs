//! The figures of one named scope: how often it ran, how long, and how that
//! compares with the whole run.
//!
//! Times are whole nanoseconds. A percentage is held in hundredths of a
//! percent, rounded down, so `10_000` stands for 100%.

use vstd::prelude::*;

verus! {

/// 100%, in hundredths of a percent.
pub const FULL: u128 = 10_000;

/// The sum of `durations`.
pub open spec fn sum(durations: Seq<u64>) -> nat
    decreases durations.len(),
{
    if durations.len() == 0 {
        0
    } else {
        sum(durations.drop_last()) + durations.last() as nat
    }
}

/// `part` as a share of `whole`, in hundredths of a percent and rounded
/// down. A `whole` of zero counts as fully used.
pub open spec fn percent_of(part: nat, whole: nat) -> nat {
    if whole == 0 {
        10_000
    } else {
        part * 10_000 / whole
    }
}

/// The time per call, rounded down: the total itself where nothing was called.
pub open spec fn average_of(total: nat, calls: nat) -> nat {
    if calls == 0 {
        total
    } else {
        total / calls
    }
}

/// A sum grows with every duration that joins it.
pub proof fn lemma_sum_prefix(durations: Seq<u64>, k: int)
    requires
        0 <= k <= durations.len(),
    ensures
        sum(durations.take(k)) <= sum(durations),
    decreases durations.len() - k,
{
    if k < durations.len() {
        lemma_sum_prefix(durations, k + 1);
        assert(durations.take(k + 1).drop_last() =~= durations.take(k));
    } else {
        assert(durations.take(k) =~= durations);
    }
}

/// The sum of `durations`, or `None` where it does not fit.
pub fn checked_sum(durations: &Vec<u64>) -> (total: Option<u64>)
    ensures
        total.is_none() <==> sum(durations@) > u64::MAX,
        total matches Some(t) ==> t == sum(durations@),
{
    let mut total: u64 = 0;
    let mut k: usize = 0;
    while k < durations.len()
        invariant
            k <= durations.len(),
            total == sum(durations@.take(k as int)),
        decreases durations.len() - k,
    {
        proof {
            assert(durations@.take(k + 1).drop_last() =~= durations@.take(k as int));
            lemma_sum_prefix(durations@, k + 1);
        }
        match total.checked_add(durations[k]) {
            Some(next) => {
                total = next;
            },
            None => {
                return None;
            },
        }
        k = k + 1;
    }
    proof {
        assert(durations@.take(k as int) =~= durations@);
    }
    Some(total)
}

/// Computes [`percent_of`].
pub fn percent(part: u64, whole: u128) -> (p: u128)
    ensures
        p == percent_of(part as nat, whole as nat),
{
    if whole == 0 {
        FULL
    } else {
        let scaled: u128 = (part as u128) * FULL;
        scaled / whole
    }
}

/// Computes [`average_of`].
pub fn average(total: u64, calls: usize) -> (a: u64)
    ensures
        a == average_of(total as nat, calls as nat),
{
    if calls == 0 {
        total
    } else {
        total / (calls as u64)
    }
}

/// The figures of one scope.
#[derive(Debug)]
pub struct Timing {
    /// The name as the table shows it: indented by the depth of the scope.
    pub formatted_name: String,
    /// The name of the scope.
    pub name: String,
    /// The share of the run's wall-clock time, in hundredths of a percent.
    pub percent_app: u128,
    /// Wall-clock time: the longest that any one thread spent in the scope.
    pub total_real: u64,
    /// The share of all CPU time, in hundredths of a percent.
    pub percent_cpu: u128,
    /// CPU time: what all threads together spent in the scope.
    pub total_cpu: u64,
    /// CPU time per call.
    pub average: u64,
    /// The number of calls that ended.
    pub calls: usize,
    /// The thread whose figures came in first.
    pub thread: usize,
    /// The thread whose figures came in last.
    pub last_thread: usize,
    /// What the thread whose figures came in last spent in the scope.
    pub thread_real: u64,
}

impl Timing {
    /// The figures of one scope of one thread, whose calls took `durations`,
    /// of which the thread ran for `total`.
    pub open spec fn is_from(
        &self,
        name: Seq<char>,
        formatted_name: Seq<char>,
        durations: Seq<u64>,
        total: u64,
        thread: usize,
    ) -> bool {
        &&& self.name@ == name
        &&& self.formatted_name@ == formatted_name
        &&& self.percent_app == percent_of(sum(durations), total as nat)
        &&& self.total_real == sum(durations)
        &&& self.percent_cpu == percent_of(sum(durations), total as nat)
        &&& self.total_cpu == sum(durations)
        &&& self.average == average_of(sum(durations), durations.len())
        &&& self.calls == durations.len()
        &&& self.thread == thread
        &&& self.last_thread == thread
        &&& self.thread_real == sum(durations)
    }

    /// The figures of a scope of thread `thread` whose calls took `timings`;
    /// `total` is the time that the thread ran. `None` where the sum of
    /// `timings` does not fit.
    pub fn from_durations(
        name: String,
        formatted_name: String,
        timings: &Vec<u64>,
        total: u64,
        thread: usize,
    ) -> (timing: Option<Timing>)
        ensures
            timing.is_none() <==> sum(timings@) > u64::MAX,
            timing matches Some(t) ==> t.is_from(name@, formatted_name@, timings@, total, thread),
    {
        match checked_sum(timings) {
            None => None,
            Some(sum) => {
                let share = percent(sum, total as u128);
                Some(
                    Timing {
                        formatted_name,
                        name,
                        percent_app: share,
                        total_real: sum,
                        percent_cpu: share,
                        total_cpu: sum,
                        average: average(sum, timings.len()),
                        calls: timings.len(),
                        thread,
                        last_thread: thread,
                        thread_real: sum,
                    },
                )
            },
        }
    }

    /// The figures are those of one scope of one thread: all its time was
    /// spent in that thread.
    pub open spec fn is_row(&self) -> bool {
        &&& self.total_real == self.total_cpu
        &&& self.thread_real == self.total_cpu
        &&& self.last_thread == self.thread
        &&& self.average == average_of(self.total_cpu as nat, self.calls as nat)
    }

    /// A copy of these figures.
    pub fn duplicate(&self) -> (copy: Timing)
        ensures
            copy == *self,
    {
        Timing {
            formatted_name: self.formatted_name.clone(),
            name: self.name.clone(),
            percent_app: self.percent_app,
            total_real: self.total_real,
            percent_cpu: self.percent_cpu,
            total_cpu: self.total_cpu,
            average: self.average,
            calls: self.calls,
            thread: self.thread,
            last_thread: self.last_thread,
            thread_real: self.thread_real,
        }
    }

    /// Whether the figures of `other` can be added to these without a count
    /// or a time leaving its range.
    pub open spec fn can_merge(&self, other: &Timing) -> bool {
        &&& self.calls + other.calls <= usize::MAX
        &&& self.total_cpu + other.total_cpu <= u64::MAX
        &&& self.last_thread == other.thread ==> self.thread_real + other.total_real <= u64::MAX
    }

    /// What the thread of `other` has spent in the scope once `other` is
    /// counted in.
    pub open spec fn merged_thread_real(&self, other: &Timing) -> nat {
        if self.last_thread == other.thread {
            (self.thread_real + other.total_real) as nat
        } else {
            other.total_real as nat
        }
    }

    /// Adds the figures of `other`, which are of the same scope.
    ///
    /// Calls and CPU time add up. Wall-clock time is the longest that one
    /// thread spent in the scope: times of the thread counted last add up,
    /// another thread starts from zero and is then the thread counted last.
    /// The name and the thread that came first stay, and so does the shorter
    /// of the two formatted names. Returns `false`, and changes nothing, where a count or a
    /// time would leave its range.
    pub fn merge(&mut self, other: &Timing) -> (merged: bool)
        ensures
            merged == old(self).can_merge(other),
            !merged ==> *final(self) == *old(self),
            merged ==> {
                &&& final(self).name == old(self).name
                &&& final(self).formatted_name@ == if old(self).formatted_name@.len()
                    > other.formatted_name@.len() {
                    other.formatted_name@
                } else {
                    old(self).formatted_name@
                }
                &&& final(self).calls == old(self).calls + other.calls
                &&& final(self).total_cpu == old(self).total_cpu + other.total_cpu
                &&& final(self).thread == old(self).thread
                &&& final(self).last_thread == other.thread
                &&& final(self).thread_real == old(self).merged_thread_real(other)
                &&& final(self).total_real == if old(self).total_real >= old(
                    self,
                ).merged_thread_real(other) {
                    old(self).total_real as nat
                } else {
                    old(self).merged_thread_real(other)
                }
                &&& final(self).average == average_of(
                    final(self).total_cpu as nat,
                    final(self).calls as nat,
                )
                &&& final(self).percent_app == old(self).percent_app
                &&& final(self).percent_cpu == old(self).percent_cpu
            },
    {
        let calls = match self.calls.checked_add(other.calls) {
            Some(calls) => calls,
            None => {
                return false;
            },
        };
        let total_cpu = match self.total_cpu.checked_add(other.total_cpu) {
            Some(total_cpu) => total_cpu,
            None => {
                return false;
            },
        };
        let thread_real = if self.last_thread == other.thread {
            match self.thread_real.checked_add(other.total_real) {
                Some(thread_real) => thread_real,
                None => {
                    return false;
                },
            }
        } else {
            other.total_real
        };
        if self.formatted_name.as_str().unicode_len() > other.formatted_name.as_str().unicode_len() {
            self.formatted_name = other.formatted_name.clone();
        }
        self.calls = calls;
        self.total_cpu = total_cpu;
        self.last_thread = other.thread;
        self.thread_real = thread_real;
        if thread_real > self.total_real {
            self.total_real = thread_real;
        }
        self.average = average(total_cpu, calls);
        true
    }

    /// Sets both percentages: wall-clock time against `total_app`, the time
    /// that the run took, and CPU time against `total_cpu`, the CPU time of
    /// all scopes together.
    pub fn update_percent(&mut self, total_app: u64, total_cpu: u128)
        ensures
            final(self).percent_app == percent_of(old(self).total_real as nat, total_app as nat),
            final(self).percent_cpu == percent_of(old(self).total_cpu as nat, total_cpu as nat),
            final(self).formatted_name == old(self).formatted_name,
            final(self).name == old(self).name,
            final(self).total_real == old(self).total_real,
            final(self).total_cpu == old(self).total_cpu,
            final(self).average == old(self).average,
            final(self).calls == old(self).calls,
            final(self).thread == old(self).thread,
            final(self).last_thread == old(self).last_thread,
            final(self).thread_real == old(self).thread_real,
    {
        self.percent_app = percent(self.total_real, total_app as u128);
        self.percent_cpu = percent(self.total_cpu, total_cpu);
    }
}

} // verus!
