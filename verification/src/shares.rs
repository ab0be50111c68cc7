//! The shares that the rows of one thread show: what the nesting of time
//! means for the percentages of a thread whose clock does not run backwards
//! and whose scopes are all left.

use crate::coverage::{
    lemma_every_scope_once, lemma_preorder_in_range, lemma_sum_rearranged, occurrences, sum_at,
    sum_below,
};
use crate::flatten::{row_of, rows_match};
use crate::measure::Measure;
use crate::nesting::{lemma_nested_shares, ordered, roots_percent};
use crate::report::{all_rows, is_table, max_elapsed, reports, scope_row, thread_rows};
use crate::rows::{
    amount, is_root_row, keys, keys_sum, lemma_keys_partition, lemma_total_none,
    lemma_total_single, real_of, total_of, Figure, Hierarchy, Row,
};
use crate::text::lemma_formatted_root;
use crate::totals::lemma_rows_sum_at;
use crate::timing::{percent_of, sum, Timing};
use crate::tree::{
    balanced, forest_of, is_child, lemma_forest_len, lemma_walk_wf, traversal, unfolded,
    ScopeRecord,
};
use vstd::prelude::*;

verus! {

/// The shares of the run that the rows of the outermost scopes show, added
/// up; `rows` are the rows of the scopes at the positions `order`.
pub open spec fn root_shares(rows: Seq<Timing>, records: Seq<ScopeRecord>, order: Seq<int>) -> nat
    decreases rows.len(),
{
    if rows.len() == 0 || order.len() != rows.len() {
        0
    } else {
        root_shares(rows.drop_last(), records, order.drop_last()) + if records[order.last()].path.len()
            == 1 {
            rows.last().percent_app as nat
        } else {
            0
        }
    }
}

/// The share of `whole` that the scope at `j` takes if it is an outermost
/// scope, zero if it is not.
pub open spec fn root_share(records: Seq<ScopeRecord>, whole: nat, j: int) -> nat {
    if records[j].path.len() == 1 {
        percent_of(sum(records[j].durations), whole)
    } else {
        0
    }
}

/// The shares of the outermost scopes among the first `n` scopes, scope by
/// scope.
proof fn lemma_roots_as_sum(records: Seq<ScopeRecord>, whole: nat, n: int)
    requires
        0 <= n <= records.len(),
    ensures
        roots_percent(records.take(n), whole) == sum_below(
            n as nat,
            |j: int| root_share(records, whole, j),
        ),
    decreases n,
{
    if n > 0 {
        lemma_roots_as_sum(records, whole, n - 1);
        assert(records.take(n).drop_last() =~= records.take(n - 1));
        assert(records.take(n).last() == records[n - 1]);
    }
}

/// The shares that the rows of the outermost scopes show, position by
/// position.
proof fn lemma_root_shares_at(
    rows: Seq<Timing>,
    records: Seq<ScopeRecord>,
    order: Seq<int>,
    total: u64,
    thread: usize,
)
    requires
        rows_match(rows, records, order, total, thread),
    ensures
        root_shares(rows, records, order) == sum_at(
            order,
            |j: int| root_share(records, total as nat, j),
        ),
    decreases rows.len(),
{
    if rows.len() > 0 {
        let last = rows.len() - 1;
        assert(0 <= order[last] < records.len() && row_of(
            rows[last],
            records[order[last]],
            total,
            thread,
        ));
        assert forall|j: int| 0 <= j < order.drop_last().len() implies 0 <= (
        #[trigger] order.drop_last()[j]) < records.len() && row_of(
            rows.drop_last()[j],
            records[order.drop_last()[j]],
            total,
            thread,
        ) by {
            assert(0 <= order[j] < records.len() && row_of(
                rows[j],
                records[order[j]],
                total,
                thread,
            ));
        }
        lemma_root_shares_at(rows.drop_last(), records, order.drop_last(), total, thread);
    }
}

/// The shares of one thread add up as its scopes are nested. Let `rows` be
/// the rows of the forest of a log whose clock does not run backwards, in
/// which every scope that is entered is left and no call stays in its
/// scope, made for a thread that ran for a time `total` that is not zero and
/// covers the log. Then the rows of the
/// outermost scopes show together no more than 100%, and the row of a scope
/// shows no less than the row of a scope directly under it.
pub proof fn lemma_rows_nested(
    rows: Seq<Timing>,
    measures: Seq<Measure>,
    mode: Hierarchy,
    total: u64,
    thread: usize,
)
    requires
        unfolded(measures, mode),
        balanced(measures),
        ordered(measures),
        0 < measures.len() <= usize::MAX,
        total > 0,
        total >= measures.last().time - measures[0].time,
        rows_match(rows, forest_of(measures, mode), traversal(forest_of(measures, mode)), total, thread),
    ensures
        root_shares(rows, forest_of(measures, mode), traversal(forest_of(measures, mode))) <= 10_000,
        forall|a: int, b: int|
            0 <= a < rows.len() && 0 <= b < rows.len() && is_child(
                forest_of(measures, mode)[traversal(forest_of(measures, mode))[b]].path,
                forest_of(measures, mode)[traversal(forest_of(measures, mode))[a]].path,
            ) ==> (#[trigger] rows[b]).percent_app <= (#[trigger] rows[a]).percent_app,
{
    let records = forest_of(measures, mode);
    let order = traversal(records);
    let whole = total as nat;
    let g = |j: int| root_share(records, whole, j);
    lemma_nested_shares(measures, mode, whole);
    lemma_walk_wf(measures, mode);
    lemma_forest_len(measures, mode);
    lemma_preorder_in_range(records, None, 0);
    assert forall|j: int| 0 <= j < records.len() implies occurrences(order, j) == 1 by {
        lemma_every_scope_once(records, j);
    }
    lemma_sum_rearranged(order, records.len(), g);
    lemma_root_shares_at(rows, records, order, total, thread);
    lemma_roots_as_sum(records, whole, records.len() as int);
    assert(records.take(records.len() as int) =~= records);
    assert forall|a: int, b: int|
        0 <= a < rows.len() && 0 <= b < rows.len() && is_child(
            records[order[b]].path,
            records[order[a]].path,
        ) implies (#[trigger] rows[b]).percent_app <= (#[trigger] rows[a]).percent_app by {
        assert(0 <= order[a] < records.len() && row_of(rows[a], records[order[a]], total, thread));
        assert(0 <= order[b] < records.len() && row_of(rows[b], records[order[b]], total, thread));
    }
}

/// Some row of the key `key` is that of an outermost scope.
pub open spec fn has_root(rows: Seq<Row>, key: Seq<char>) -> bool {
    exists|a: int| 0 <= a < rows.len() && (#[trigger] rows[a]).key == key && is_root_row(rows[a])
}

/// No other row has the key of the row of an outermost scope: no scope
/// further down, and no other outermost scope, falls into its entry.
pub open spec fn roots_apart(rows: Seq<Row>) -> bool {
    forall|a: int, b: int|
        0 <= a < rows.len() && 0 <= b < rows.len() && a != b && is_root_row(#[trigger] rows[a])
            ==> rows[a].key != (#[trigger] rows[b]).key
}

/// The shares of the run that the entries of the outermost scopes show,
/// added up; `ks` are the keys of the entries `timings`.
pub open spec fn root_entries(timings: Seq<Timing>, rows: Seq<Row>, ks: Seq<Seq<char>>) -> nat
    decreases timings.len(),
{
    if timings.len() == 0 || ks.len() != timings.len() {
        0
    } else {
        root_entries(timings.drop_last(), rows, ks.drop_last()) + if has_root(rows, ks.last()) {
            timings.last().percent_app as nat
        } else {
            0
        }
    }
}

/// The shares of the entries of the outermost scopes are the shares of
/// their keys.
proof fn lemma_root_entries_by_key(
    timings: Seq<Timing>,
    rows: Seq<Row>,
    ks: Seq<Seq<char>>,
    whole: nat,
    n: int,
)
    requires
        timings.len() == ks.len(),
        0 <= n <= timings.len(),
        forall|j: int|
            0 <= j < timings.len() ==> total_of(rows, #[trigger] ks[j], Figure::RootShare(whole))
                == if has_root(rows, ks[j]) {
                timings[j].percent_app as nat
            } else {
                0
            },
    ensures
        root_entries(timings.take(n), rows, ks.take(n)) == keys_sum(
            rows,
            ks.take(n),
            Figure::RootShare(whole),
        ),
    decreases n,
{
    if n > 0 {
        lemma_root_entries_by_key(timings, rows, ks, whole, n - 1);
        assert(timings.take(n).drop_last() =~= timings.take(n - 1));
        assert(ks.take(n).drop_last() =~= ks.take(n - 1));
        assert(timings.take(n).last() == timings[n - 1]);
        assert(ks.take(n).last() == ks[n - 1]);
    }
}

/// In the table of one thread the entries of the outermost scopes show
/// together no more than 100%. This holds of a thread whose clock does not
/// run backwards, in whose log every scope that is entered is left and no
/// call stays in its scope, which ran for a time that is not zero and covers
/// the log, and of whose outermost scopes each has an entry of its own.
pub proof fn lemma_table_roots(
    timings: Seq<Timing>,
    threads: Seq<(u64, Vec<Measure>)>,
    mode: Hierarchy,
)
    requires
        threads.len() == 1,
        unfolded(threads[0].1@, mode),
        balanced(threads[0].1@),
        ordered(threads[0].1@),
        threads[0].1@.len() > 0,
        threads[0].0 > 0,
        threads[0].0 >= threads[0].1@.last().time - threads[0].1@[0].time,
        is_table(timings, threads, mode),
        roots_apart(all_rows(threads, mode)),
    ensures
        root_entries(timings, all_rows(threads, mode), keys(all_rows(threads, mode))) <= 10_000,
{
    let log = threads[0].1;
    let measures = log@;
    let whole = threads[0].0 as nat;
    let records = forest_of(measures, mode);
    let order = traversal(records);
    let rows = all_rows(threads, mode);
    let ks = keys(rows);
    let what = Figure::RootShare(whole);
    let g = |j: int| root_share(records, whole, j);
    assert(log.len() == log@.len());
    assert(threads.drop_last() =~= Seq::<(u64, Vec<Measure>)>::empty());
    assert(threads.last() == threads[0]);
    assert(all_rows(threads.drop_last(), mode) =~= Seq::<Row>::empty());
    assert(rows =~= thread_rows(measures, mode, 0));
    assert(max_elapsed(threads.drop_last()) == 0);
    assert(max_elapsed(threads) == whole);
    lemma_nested_shares(measures, mode, whole);
    lemma_walk_wf(measures, mode);
    lemma_forest_len(measures, mode);
    lemma_preorder_in_range(records, None, 0);
    assert forall|j: int| 0 <= j < records.len() implies occurrences(order, j) == 1 by {
        lemma_every_scope_once(records, j);
    }
    lemma_sum_rearranged(order, records.len(), g);
    assert forall|k: int| 0 <= k < rows.len() implies amount(#[trigger] rows[k], what) == g(
        order[k],
    ) by {
        let record = records[order[k]];
        assert(rows[k] == scope_row(record, mode, 0));
        lemma_formatted_root((record.path.len() - 1) as nat, record.path.last());
    }
    lemma_rows_sum_at(rows, order, g, what);
    lemma_roots_as_sum(records, whole, records.len() as int);
    assert(records.take(records.len() as int) =~= records);
    lemma_keys_partition(rows, what);
    assert forall|j: int| 0 <= j < timings.len() implies total_of(rows, #[trigger] ks[j], what)
        == if has_root(rows, ks[j]) {
        timings[j].percent_app as nat
    } else {
        0
    } by {
        let key = ks[j];
        assert(reports(timings[j], rows, key, mode, 1, whole));
        if has_root(rows, key) {
            let a = choose|a: int|
                0 <= a < rows.len() && (#[trigger] rows[a]).key == key && is_root_row(rows[a]);
            assert forall|b: int| 0 <= b < rows.len() && b != a implies (#[trigger] rows[b]).key
                != rows[a].key by {
                assert(rows[a].key != rows[b].key);
            }
            lemma_total_single(rows, a, what);
            lemma_total_single(rows, a, Figure::InThread(0));
            assert(rows[a].thread == 0);
            assert(real_of(rows, key, 0) == 0);
            assert(real_of(rows, key, 1) == rows[a].total);
        } else {
            assert forall|b: int| 0 <= b < rows.len() implies amount(#[trigger] rows[b], what)
                == 0 || rows[b].key != key by {
                if rows[b].key == key {
                    assert(!is_root_row(rows[b]));
                }
            }
            lemma_total_none(rows, key, what);
        }
    }
    lemma_root_entries_by_key(timings, rows, ks, whole, timings.len() as int);
    assert(timings.take(timings.len() as int) =~= timings);
    assert(ks.take(ks.len() as int) =~= ks);
}

} // verus!
