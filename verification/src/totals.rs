//! The table counts every call: where every scope that is entered is left,
//! the calls of all entries add up to the `Start`s of all logs.

use crate::counting::{count_durations, count_starts, lemma_one_duration_per_call};
use crate::coverage::{
    lemma_every_scope_once, lemma_preorder_in_range, lemma_sum_rearranged, sum_at, sum_below,
};
use crate::measure::Measure;
use crate::report::{all_balanced, all_rows, is_table, max_elapsed, reports, thread_rows};
use crate::rows::{
    amount, keys, keys_sum, lemma_keys_partition, lemma_rows_sum_concat, rows_sum, total_of,
    Figure, Hierarchy, Row,
};
use crate::timing::Timing;
use crate::tree::{
    balanced, forest_of, lemma_forest_len, lemma_walk_wf, traversal, ScopeRecord,
};
use vstd::prelude::*;

verus! {

/// The durations that the forests of all logs hold together.
pub open spec fn durations_in(threads: Seq<(u64, Vec<Measure>)>, mode: Hierarchy) -> nat
    decreases threads.len(),
{
    if threads.len() == 0 {
        0
    } else {
        durations_in(threads.drop_last(), mode) + count_durations(forest_of(threads.last().1@, mode))
    }
}

/// The `Start`s of all logs together.
pub open spec fn starts_in(threads: Seq<(u64, Vec<Measure>)>) -> nat
    decreases threads.len(),
{
    if threads.len() == 0 {
        0
    } else {
        starts_in(threads.drop_last()) + count_starts(threads.last().1@)
    }
}

/// The calls of all entries together.
pub open spec fn calls_in(timings: Seq<Timing>) -> nat
    decreases timings.len(),
{
    if timings.len() == 0 {
        0
    } else {
        calls_in(timings.drop_last()) + timings.last().calls as nat
    }
}

/// The durations of the first `n` scopes, counted scope by scope.
proof fn lemma_count_as_sum(records: Seq<ScopeRecord>, n: int)
    requires
        0 <= n <= records.len(),
    ensures
        count_durations(records.take(n)) == sum_below(
            n as nat,
            |j: int| records[j].durations.len(),
        ),
    decreases n,
{
    if n > 0 {
        lemma_count_as_sum(records, n - 1);
        assert(records.take(n).drop_last() =~= records.take(n - 1));
        assert(records.take(n).last() == records[n - 1]);
    }
}

/// Rows that hold, one by one, the values of `g` at the positions `order`
/// add up to those values.
pub proof fn lemma_rows_sum_at(rows: Seq<Row>, order: Seq<int>, g: spec_fn(int) -> nat, what: Figure)
    requires
        rows.len() == order.len(),
        forall|k: int| 0 <= k < rows.len() ==> amount(#[trigger] rows[k], what) == g(order[k]),
    ensures
        rows_sum(rows, what) == sum_at(order, g),
    decreases rows.len(),
{
    if rows.len() > 0 {
        assert(amount(rows[rows.len() - 1], what) == g(order[rows.len() - 1]));
        assert forall|k: int| 0 <= k < rows.drop_last().len() implies amount(
            #[trigger] rows.drop_last()[k],
            what,
        ) == g(order.drop_last()[k]) by {
            assert(amount(rows[k], what) == g(order[k]));
        }
        lemma_rows_sum_at(rows.drop_last(), order.drop_last(), g, what);
    }
}

/// The rows of a thread hold together as many calls as the scopes of its
/// forest hold durations.
pub proof fn lemma_thread_calls(measures: Seq<Measure>, mode: Hierarchy, thread: nat)
    requires
        measures.len() <= usize::MAX,
    ensures
        rows_sum(thread_rows(measures, mode, thread), Figure::Calls) == count_durations(
            forest_of(measures, mode),
        ),
{
    let records = forest_of(measures, mode);
    let order = traversal(records);
    let g = |j: int| records[j].durations.len();
    lemma_forest_len(measures, mode);
    lemma_walk_wf(measures, mode);
    lemma_preorder_in_range(records, None, 0);
    assert forall|j: int| 0 <= j < records.len() implies crate::coverage::occurrences(order, j)
        == 1 by {
        lemma_every_scope_once(records, j);
    }
    lemma_sum_rearranged(order, records.len(), g);
    lemma_rows_sum_at(thread_rows(measures, mode, thread), order, g, Figure::Calls);
    lemma_count_as_sum(records, records.len() as int);
    assert(records.take(records.len() as int) =~= records);
}

/// The rows of all threads hold together as many calls as the scopes of all
/// forests hold durations.
pub proof fn lemma_all_calls(threads: Seq<(u64, Vec<Measure>)>, mode: Hierarchy)
    ensures
        rows_sum(all_rows(threads, mode), Figure::Calls) == durations_in(threads, mode),
    decreases threads.len(),
{
    if threads.len() > 0 {
        let log = threads.last().1;
        assert(log.len() == log@.len());
        lemma_all_calls(threads.drop_last(), mode);
        lemma_thread_calls(log@, mode, (threads.len() - 1) as nat);
        lemma_rows_sum_concat(
            all_rows(threads.drop_last(), mode),
            thread_rows(log@, mode, (threads.len() - 1) as nat),
            Figure::Calls,
        );
    }
}

/// Where every scope that is entered is left, the forests hold a duration
/// for every `Start`.
proof fn lemma_balanced_durations(threads: Seq<(u64, Vec<Measure>)>, mode: Hierarchy)
    requires
        all_balanced(threads),
    ensures
        durations_in(threads, mode) == starts_in(threads),
    decreases threads.len(),
{
    if threads.len() > 0 {
        assert(balanced(threads[threads.len() - 1].1@));
        assert forall|t: int| 0 <= t < threads.drop_last().len() implies balanced(
            (#[trigger] threads.drop_last()[t]).1@,
        ) by {
            assert(balanced(threads[t].1@));
        }
        lemma_balanced_durations(threads.drop_last(), mode);
        lemma_one_duration_per_call(threads.last().1@, mode);
    }
}

/// The calls of the first `n` entries are the calls of the first `n` keys.
proof fn lemma_calls_by_key(timings: Seq<Timing>, rows: Seq<Row>, ks: Seq<Seq<char>>, n: int)
    requires
        timings.len() == ks.len(),
        0 <= n <= timings.len(),
        forall|j: int|
            0 <= j < timings.len() ==> (#[trigger] timings[j]).calls == total_of(
                rows,
                ks[j],
                Figure::Calls,
            ),
    ensures
        calls_in(timings.take(n)) == keys_sum(rows, ks.take(n), Figure::Calls),
    decreases n,
{
    if n > 0 {
        lemma_calls_by_key(timings, rows, ks, n - 1);
        assert(timings.take(n).drop_last() =~= timings.take(n - 1));
        assert(ks.take(n).drop_last() =~= ks.take(n - 1));
        assert(timings.take(n).last() == timings[n - 1]);
        assert(ks.take(n).last() == ks[n - 1]);
    }
}

/// The entries of a table hold together as many calls as the scopes of all
/// forests hold durations: no call that ended is left out and none is
/// counted twice.
pub proof fn lemma_table_counts_durations(
    timings: Seq<Timing>,
    threads: Seq<(u64, Vec<Measure>)>,
    mode: Hierarchy,
)
    requires
        is_table(timings, threads, mode),
    ensures
        calls_in(timings) == durations_in(threads, mode),
{
    let rows = all_rows(threads, mode);
    let ks = keys(rows);
    assert forall|j: int| 0 <= j < timings.len() implies (#[trigger] timings[j]).calls == total_of(
        rows,
        ks[j],
        Figure::Calls,
    ) by {
        assert(reports(timings[j], rows, ks[j], mode, threads.len(), max_elapsed(threads)));
    }
    lemma_calls_by_key(timings, rows, ks, timings.len() as int);
    assert(timings.take(timings.len() as int) =~= timings);
    assert(ks.take(ks.len() as int) =~= ks);
    lemma_keys_partition(rows, Figure::Calls);
    lemma_all_calls(threads, mode);
}

/// The table counts every call: where in every log each scope that is
/// entered is left, the calls of all entries add up to the `Start`s of all
/// logs, whatever the order of the logs and however keys are formed.
pub proof fn lemma_table_counts_calls(
    timings: Seq<Timing>,
    threads: Seq<(u64, Vec<Measure>)>,
    mode: Hierarchy,
)
    requires
        is_table(timings, threads, mode),
        all_balanced(threads),
    ensures
        calls_in(timings) == starts_in(threads),
{
    lemma_table_counts_durations(timings, threads, mode);
    lemma_balanced_durations(threads, mode);
}

} // verus!
