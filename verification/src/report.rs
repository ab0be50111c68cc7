//! From the logs of all threads to the table of timings.

use crate::aggregate::{key_view, row_view, summarises, Aggregator};
use crate::flatten::{row_of, rows_match, to_timings};
use crate::forest::into_tree;
use crate::measure::Measure;
use crate::rows::{
    cpu_sum, keys, label_of, lemma_real_idle, lemma_total_absent, lemma_total_concat, name_of,
    real_of, thread_of, total_of, Figure, Hierarchy, Row,
};
use crate::table::{cells_of, render, table_of, table_text};
use crate::text::formatted;
use crate::timing::{average_of, percent_of, sum, Timing};
use crate::tree::{
    balanced, exits_matched, first_unmatched_exit, forest_of, open_depth, open_scopes, traversal,
    ScopeRecord,
};
use vstd::prelude::*;
use vstd::utf8::encode_utf8;

verus! {

/// Why no table could be made.
#[derive(Debug, Clone, Copy, PartialEq, Eq, Structural)]
pub enum ReportError {
    /// Event `at` of the log of thread `thread` ends a scope although none is
    /// open: scopes were not left in the reverse of the order in which they
    /// were entered.
    UnmatchedExit { thread: usize, at: usize },
    /// The log of thread `thread` ends with a scope that was entered and
    /// never left.
    OpenScope { thread: usize },
    /// The calls or the time of a scope are more than a number can hold.
    Overflow,
}

/// The row that the scope `record` of thread `thread` hands to the merge.
pub open spec fn scope_row(record: ScopeRecord, mode: Hierarchy, thread: nat) -> Row {
    let name = record.path.last();
    let label = formatted((record.path.len() - 1) as nat, name);
    Row {
        key: match mode {
            Hierarchy::Collapsed => name,
            Hierarchy::Deep => label,
        },
        name,
        label,
        calls: record.durations.len(),
        total: sum(record.durations),
        thread,
    }
}

/// The rows of one thread: the scopes of its forest in pre-order.
pub open spec fn thread_rows(measures: Seq<Measure>, mode: Hierarchy, thread: nat) -> Seq<Row> {
    let records = forest_of(measures, mode);
    let order = traversal(records);
    Seq::new(order.len(), |j: int| scope_row(records[order[j]], mode, thread))
}

/// The rows of all threads, thread by thread.
pub open spec fn all_rows(threads: Seq<(u64, Vec<Measure>)>, mode: Hierarchy) -> Seq<Row>
    decreases threads.len(),
{
    if threads.len() == 0 {
        Seq::empty()
    } else {
        all_rows(threads.drop_last(), mode) + thread_rows(
            threads.last().1@,
            mode,
            (threads.len() - 1) as nat,
        )
    }
}

/// The time that the run took: the longest that any thread ran.
pub open spec fn max_elapsed(threads: Seq<(u64, Vec<Measure>)>) -> nat
    decreases threads.len(),
{
    if threads.len() == 0 {
        0
    } else {
        let before = max_elapsed(threads.drop_last());
        if before >= threads.last().0 {
            before
        } else {
            threads.last().0 as nat
        }
    }
}

/// In every log each scope that is entered is left, and nothing else is.
pub open spec fn all_balanced(threads: Seq<(u64, Vec<Measure>)>) -> bool {
    forall|t: int| 0 <= t < threads.len() ==> balanced((#[trigger] threads[t]).1@)
}

/// The calls or the CPU time of the key `key` are more than a number can hold.
pub open spec fn exceeds(rows: Seq<Row>, key: Seq<char>) -> bool {
    total_of(rows, key, Figure::Calls) > usize::MAX || total_of(rows, key, Figure::Cpu) > u64::MAX
}

/// The calls or the CPU time of some key are more than a number can hold.
pub open spec fn too_large(rows: Seq<Row>) -> bool {
    exists|key: Seq<char>| exceeds(rows, key)
}

/// `t` is the entry of the key `key` in the table of a run of `threads`
/// threads that took `total_app`.
///
/// Calls and CPU time are those of all rows of the key. Wall-clock time is
/// the most that one thread spent in it. The average is CPU time per call.
/// The share of the run is wall-clock time against `total_app`, the share of
/// CPU time is CPU time against that of all keys together; each is 100%
/// where what it is held against is zero.
pub open spec fn reports(
    t: Timing,
    rows: Seq<Row>,
    key: Seq<char>,
    mode: Hierarchy,
    threads: nat,
    total_app: nat,
) -> bool {
    &&& key_view(t, mode) == key
    &&& t.name@ == name_of(rows, key)
    &&& t.thread == thread_of(rows, key)
    &&& t.formatted_name@ == label_of(rows, key)
    &&& t.calls == total_of(rows, key, Figure::Calls)
    &&& t.total_cpu == total_of(rows, key, Figure::Cpu)
    &&& t.total_real == real_of(rows, key, threads)
    &&& t.average == average_of(t.total_cpu as nat, t.calls as nat)
    &&& t.percent_app == percent_of(t.total_real as nat, total_app)
    &&& t.percent_cpu == percent_of(t.total_cpu as nat, cpu_sum(rows, keys(rows)))
}

/// The rows of the first `n + 1` threads are those of the first `n` and then
/// those of thread `n`.
pub proof fn lemma_all_rows_take(threads: Seq<(u64, Vec<Measure>)>, mode: Hierarchy, n: int)
    requires
        0 <= n < threads.len(),
    ensures
        all_rows(threads.take(n + 1), mode) == all_rows(threads.take(n), mode) + thread_rows(
            threads[n].1@,
            mode,
            n as nat,
        ),
{
    assert(threads.take(n + 1).drop_last() =~= threads.take(n));
}

/// What the first `n` threads add up to, all threads add up to at least.
pub proof fn lemma_total_grows(
    threads: Seq<(u64, Vec<Measure>)>,
    mode: Hierarchy,
    n: int,
    key: Seq<char>,
    what: Figure,
)
    requires
        0 <= n <= threads.len(),
    ensures
        total_of(all_rows(threads.take(n), mode), key, what) <= total_of(
            all_rows(threads, mode),
            key,
            what,
        ),
    decreases threads.len() - n,
{
    if n < threads.len() {
        lemma_all_rows_take(threads, mode, n);
        lemma_total_concat(
            all_rows(threads.take(n), mode),
            thread_rows(threads[n].1@, mode, n as nat),
            key,
            what,
        );
        lemma_total_grows(threads, mode, n + 1, key, what);
    } else {
        assert(threads.take(n) =~= threads);
    }
}

/// What the rows before the `j`-th add up to, all rows add up to at least.
pub proof fn lemma_total_prefix(rows: Seq<Row>, j: int, key: Seq<char>, what: Figure)
    requires
        0 <= j <= rows.len(),
    ensures
        total_of(rows.take(j), key, what) <= total_of(rows, key, what),
{
    assert(rows =~= rows.take(j) + rows.skip(j));
    lemma_total_concat(rows.take(j), rows.skip(j), key, what);
}

/// The rows of a key take together at least as long as one of them.
pub proof fn lemma_total_at_least(rows: Seq<Row>, j: int)
    requires
        0 <= j < rows.len(),
    ensures
        total_of(rows, rows[j].key, Figure::Cpu) >= rows[j].total,
    decreases rows.len(),
{
    if j < rows.len() - 1 {
        lemma_total_at_least(rows.drop_last(), j);
    }
}

/// `timings` is the table of the run whose threads ran for the times and
/// kept the logs `threads`: one entry per key, in the order in which the keys
/// first occur when the threads are taken in turn and the scopes of each in
/// pre-order.
pub open spec fn is_table(
    timings: Seq<Timing>,
    threads: Seq<(u64, Vec<Measure>)>,
    mode: Hierarchy,
) -> bool {
    &&& timings.len() == keys(all_rows(threads, mode)).len()
    &&& forall|j: int|
        0 <= j < timings.len() ==> reports(
            #[trigger] timings[j],
            all_rows(threads, mode),
            keys(all_rows(threads, mode))[j],
            mode,
            threads.len(),
            max_elapsed(threads),
        )
}

/// The error, if any, that stands in the way of a table. The first log that
/// is not balanced is reported: with the place of the first `End` that finds
/// no scope open, or, where every `End` closes a scope, as a log that leaves
/// a scope open. Where all logs are balanced, numbers that do not fit are
/// reported.
pub open spec fn error_of(threads: Seq<(u64, Vec<Measure>)>, mode: Hierarchy) -> Option<
    ReportError,
> {
    if !all_balanced(threads) {
        let thread = choose|thread: int|
            0 <= thread < threads.len() && all_balanced(threads.take(thread)) && !balanced(
                (#[trigger] threads[thread]).1@,
            );
        if !exits_matched(threads[thread].1@) {
            let at = choose|at: int| first_unmatched(threads[thread].1@, at);
            Some(ReportError::UnmatchedExit { thread: thread as usize, at: at as usize })
        } else {
            Some(ReportError::OpenScope { thread: thread as usize })
        }
    } else if too_large(all_rows(threads, mode)) {
        Some(ReportError::Overflow)
    } else {
        None
    }
}

/// Event `at` is the first `End` of `measures` that finds no scope open.
pub open spec fn first_unmatched(measures: Seq<Measure>, at: int) -> bool {
    &&& 0 <= at < measures.len()
    &&& measures[at].ty is End
    &&& open_depth(measures.take(at)) == 0
    &&& exits_matched(measures.take(at))
}

/// Only one event of a log is the first `End` that finds no scope open.
pub proof fn lemma_first_unmatched_unique(measures: Seq<Measure>, a: int, b: int)
    requires
        first_unmatched(measures, a),
        first_unmatched(measures, b),
    ensures
        a == b,
{
    if a < b {
        assert(measures.take(b)[a] == measures[a]);
        assert(measures.take(b).take(a) =~= measures.take(a));
    } else if b < a {
        assert(measures.take(a)[b] == measures[b]);
        assert(measures.take(a).take(b) =~= measures.take(b));
    }
}

/// Only one log is the first that is not balanced.
pub proof fn lemma_first_thread_unique(threads: Seq<(u64, Vec<Measure>)>, a: int, b: int)
    requires
        0 <= a < threads.len(),
        0 <= b < threads.len(),
        all_balanced(threads.take(a)),
        all_balanced(threads.take(b)),
        !balanced(threads[a].1@),
        !balanced(threads[b].1@),
    ensures
        a == b,
{
    if a < b {
        assert(threads.take(b)[a] == threads[a]);
    } else if b < a {
        assert(threads.take(a)[b] == threads[b]);
    }
}

/// Merges the logs of all threads into the table of timings.
///
/// Each element of `threads` is the time that a thread ran and its log.
pub fn merge_threads(threads: &Vec<(u64, Vec<Measure>)>, mode: Hierarchy) -> (result: Result<
    Vec<Timing>,
    ReportError,
>)
    ensures
        match result {
            Ok(timings) => error_of(threads@, mode).is_none() && is_table(
                timings@,
                threads@,
                mode,
            ),
            Err(e) => error_of(threads@, mode) == Some(e),
        },
{
    let mut i: usize = 0;
    while i < threads.len()
        invariant
            i <= threads.len(),
            all_balanced(threads@.take(i as int)),
        decreases threads.len() - i,
    {
        match first_unmatched_exit(&threads[i].1) {
            Some(at) => {
                proof {
                    let log = threads@[i as int].1@;
                    assert(first_unmatched(log, at as int));
                    assert(!exits_matched(log));
                    let t = choose|thread: int|
                        0 <= thread < threads@.len() && all_balanced(threads@.take(thread))
                            && !balanced((#[trigger] threads@[thread]).1@);
                    lemma_first_thread_unique(threads@, t, i as int);
                    let a = choose|a: int| first_unmatched(log, a);
                    lemma_first_unmatched_unique(log, a, at as int);
                }
                return Err(ReportError::UnmatchedExit { thread: i, at });
            },
            None => {},
        }
        if open_scopes(&threads[i].1) > 0 {
            proof {
                let log = threads@[i as int].1@;
                assert(!balanced(log));
                let t = choose|thread: int|
                    0 <= thread < threads@.len() && all_balanced(threads@.take(thread))
                        && !balanced((#[trigger] threads@[thread]).1@);
                lemma_first_thread_unique(threads@, t, i as int);
            }
            return Err(ReportError::OpenScope { thread: i });
        }
        proof {
            assert forall|t: int| 0 <= t < i + 1 implies balanced(
                (#[trigger] threads@.take(i + 1)[t]).1@,
            ) by {
                if t < i {
                    assert(threads@.take(i as int)[t] == threads@[t]);
                }
            }
        }
        i = i + 1;
    }
    proof {
        assert(threads@.take(i as int) =~= threads@);
    }
    let ghost all = all_rows(threads@, mode);
    let mut aggregator = Aggregator::new(mode);
    let mut total_app: u64 = 0;
    let mut i: usize = 0;
    while i < threads.len()
        invariant
            i <= threads.len(),
            all_balanced(threads@),
            all == all_rows(threads@, mode),
            aggregator.wf(),
            aggregator.mode() == mode,
            aggregator@ == all_rows(threads@.take(i as int), mode),
            aggregator@.len() > 0 ==> aggregator@.last().thread < i,
            total_app == max_elapsed(threads@.take(i as int)),
        decreases threads.len() - i,
    {
        let ghost base = aggregator@;
        let ghost tr = thread_rows(threads[i as int].1@, mode, i as nat);
        proof {
            lemma_all_rows_take(threads@, mode, i as int);
            assert(threads@.take(i + 1).drop_last() =~= threads@.take(i as int));
            assert(balanced(threads@[i as int].1@));
        }
        let elapsed = threads[i].0;
        if elapsed > total_app {
            total_app = elapsed;
        }
        let forest = into_tree(&threads[i].1, mode);
        let ghost records = forest@;
        let ghost order = traversal(records);
        let rows = match to_timings(&forest, elapsed, i) {
            Some(rows) => rows,
            None => {
                proof {
                    let j = choose|j: int|
                        0 <= j < order.len() && 0 <= (#[trigger] order[j]) < records.len() && sum(
                            records[order[j]].durations,
                        ) > u64::MAX;
                    let key = tr[j].key;
                    lemma_total_at_least(tr, j);
                    lemma_total_concat(base, tr, key, Figure::Cpu);
                    lemma_total_grows(threads@, mode, i + 1, key, Figure::Cpu);
                    assert(exceeds(all, key));
                }
                return Err(ReportError::Overflow);
            },
        };
        let mut j: usize = 0;
        while j < rows.len()
            invariant
                j <= rows.len(),
                i < threads.len(),
                all_balanced(threads@),
                rows_match(rows@, records, order, elapsed, i),
                tr == thread_rows(threads[i as int].1@, mode, i as nat),
                records == forest_of(threads[i as int].1@, mode),
                order == traversal(records),
                all == all_rows(threads@, mode),
                base + tr == all_rows(threads@.take(i + 1), mode),
                aggregator.wf(),
                aggregator.mode() == mode,
                aggregator@ == base + tr.take(j as int),
                aggregator@.len() > 0 ==> aggregator@.last().thread <= i,
            decreases rows.len() - j,
        {
            let row = &rows[j];
            proof {
                assert(0 <= order[j as int] < records.len() && row_of(
                    rows[j as int],
                    records[order[j as int]],
                    elapsed,
                    i,
                ));
                assert(row_view(*row, mode) == tr[j as int]);
                assert((base + tr.take(j as int)).push(tr[j as int]) =~= base + tr.take(j + 1));
            }
            if !aggregator.add(row) {
                proof {
                    let key = tr[j as int].key;
                    let what = if total_of(base + tr.take(j + 1), key, Figure::Calls)
                        > usize::MAX {
                        Figure::Calls
                    } else {
                        Figure::Cpu
                    };
                    lemma_total_concat(base, tr.take(j + 1), key, what);
                    lemma_total_prefix(tr, j + 1, key, what);
                    lemma_total_concat(base, tr, key, what);
                    lemma_total_grows(threads@, mode, i + 1, key, what);
                    assert(exceeds(all, key));
                }
                return Err(ReportError::Overflow);
            }
            j = j + 1;
        }
        proof {
            assert(tr.take(j as int) =~= tr);
        }
        i = i + 1;
    }
    proof {
        assert(threads@.take(i as int) =~= threads@);
        aggregator.lemma_tabulates();
    }
    let ghost merged = aggregator.timings();
    let timings = aggregator.finish(total_app);
    proof {
        assert forall|key: Seq<char>| !exceeds(all, key) by {
            if keys(all).contains(key) {
                let j = choose|j: int| 0 <= j < keys(all).len() && keys(all)[j] == key;
                assert(summarises(timings[j], all, key, mode));
            } else {
                lemma_total_absent(all, key, Figure::Calls);
                lemma_total_absent(all, key, Figure::Cpu);
            }
        }
        assert forall|j: int| 0 <= j < timings.len() implies reports(
            #[trigger] timings[j],
            all,
            keys(all)[j],
            mode,
            threads.len() as nat,
            max_elapsed(threads@),
        ) by {
            let t = timings[j];
            assert(summarises(t, all, keys(all)[j], mode));
            lemma_real_idle(all, keys(all)[j], (t.last_thread + 1) as nat, threads.len() as nat);
        }
    }
    Ok(timings)
}

/// The bytes of the report on the entries `timings`: the table as text in
/// UTF-8, and a line feed.
pub open spec fn report_bytes(timings: Seq<Timing>) -> Seq<u8> {
    encode_utf8(table_text(timings)).push(10u8)
}

/// Appends the report on the entries `timings` to `to`.
pub fn write_table(timings: &Vec<Timing>, to: &mut Vec<u8>)
    ensures
        final(to)@ == old(to)@ + report_bytes(timings@),
{
    let text = render(timings);
    let bytes = text.as_str().as_bytes();
    let mut k: usize = 0;
    while k < bytes.len()
        invariant
            k <= bytes.len(),
            bytes@ == encode_utf8(table_text(timings@)),
            to@ == old(to)@ + bytes@.take(k as int),
        decreases bytes.len() - k,
    {
        to.push(bytes[k]);
        assert(bytes@.take(k + 1) =~= bytes@.take(k as int).push(bytes@[k as int]));
        k = k + 1;
    }
    to.push(10u8);
    assert(bytes@.take(k as int) =~= bytes@);
    assert(to@ =~= old(to)@ + report_bytes(timings@));
}

/// Makes the table of the run whose threads ran for the times and kept the
/// logs `threads`, and appends it as text to `to`. Where no table can be
/// made, `to` stays as it is.
pub fn print_timings(threads: &Vec<(u64, Vec<Measure>)>, mode: Hierarchy, to: &mut Vec<u8>) -> (result:
    Result<(), ReportError>)
    ensures
        match result {
            Ok(()) => error_of(threads@, mode).is_none() && exists|timings: Seq<Timing>|
                #![trigger is_table(timings, threads@, mode)]
                is_table(timings, threads@, mode) && final(to)@ == old(to)@ + report_bytes(
                    timings,
                ),
            Err(e) => error_of(threads@, mode) == Some(e) && final(to)@ == old(to)@,
        },
{
    match merge_threads(threads, mode) {
        Ok(timings) => {
            write_table(&timings, to);
            assert(is_table(timings@, threads@, mode));
            Ok(())
        },
        Err(e) => Err(e),
    }
}

/// The logs settle the report: two tables of the same logs give the same
/// bytes, so a report that is made again without a new event is the same
/// byte for byte.
pub proof fn lemma_report_settled(
    a: Seq<Timing>,
    b: Seq<Timing>,
    threads: Seq<(u64, Vec<Measure>)>,
    mode: Hierarchy,
)
    requires
        is_table(a, threads, mode),
        is_table(b, threads, mode),
    ensures
        report_bytes(a) == report_bytes(b),
{
    assert forall|j: int| 0 <= j < a.len() implies cells_of(a[j]) == cells_of(b[j]) by {
        let key = keys(all_rows(threads, mode))[j];
        assert(reports(a[j], all_rows(threads, mode), key, mode, threads.len(), max_elapsed(threads)));
        assert(reports(b[j], all_rows(threads, mode), key, mode, threads.len(), max_elapsed(threads)));
    }
    assert(table_of(a) =~= table_of(b));
}

/// Where no thread ran for any time, every entry of the table is given the
/// whole of the run: 100%.
pub proof fn lemma_zero_total_is_full(
    timings: Seq<Timing>,
    threads: Seq<(u64, Vec<Measure>)>,
    mode: Hierarchy,
)
    requires
        is_table(timings, threads, mode),
        max_elapsed(threads) == 0,
    ensures
        forall|j: int| 0 <= j < timings.len() ==> (#[trigger] timings[j]).percent_app == 10_000,
{
    assert forall|j: int| 0 <= j < timings.len() implies (#[trigger] timings[j]).percent_app
        == 10_000 by {
        assert(reports(
            timings[j],
            all_rows(threads, mode),
            keys(all_rows(threads, mode))[j],
            mode,
            threads.len(),
            max_elapsed(threads),
        ));
    }
}

} // verus!
