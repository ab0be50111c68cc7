//! The order in which the threads hand in their logs does not change what is
//! counted: the calls and the CPU time of a scope are the same for every
//! order of the same logs.

use crate::measure::Measure;
use crate::report::{all_rows, thread_rows};
use crate::rows::{amount, lemma_total_concat, total_of, Figure, Hierarchy, Row};
use vstd::multiset::group_multiset_axioms;
use vstd::prelude::*;
use vstd::seq_lib::{to_multiset_build, to_multiset_contains, to_multiset_len, to_multiset_remove};

verus! {

/// What the log `log` adds to the figure `what` of the key `key`.
pub open spec fn share_of(log: Vec<Measure>, mode: Hierarchy, key: Seq<char>, what: Figure) -> nat {
    total_of(thread_rows(log@, mode, 0), key, what)
}

/// What the logs `threads` add together to the figure `what` of the key
/// `key`, each log taken by itself.
pub open spec fn shares_of(
    threads: Seq<(u64, Vec<Measure>)>,
    mode: Hierarchy,
    key: Seq<char>,
    what: Figure,
) -> nat
    decreases threads.len(),
{
    if threads.len() == 0 {
        0
    } else {
        shares_of(threads.drop_last(), mode, key, what) + share_of(threads.last().1, mode, key, what)
    }
}

/// Rows that agree in their keys and in what they add to a figure add up to
/// the same.
proof fn lemma_total_same(a: Seq<Row>, b: Seq<Row>, key: Seq<char>, what: Figure)
    requires
        a.len() == b.len(),
        forall|i: int|
            0 <= i < a.len() ==> (#[trigger] a[i]).key == b[i].key && amount(a[i], what) == amount(
                b[i],
                what,
            ),
    ensures
        total_of(a, key, what) == total_of(b, key, what),
    decreases a.len(),
{
    if a.len() > 0 {
        assert(a[a.len() - 1].key == b[b.len() - 1].key);
        assert forall|i: int| 0 <= i < a.drop_last().len() implies (#[trigger] a.drop_last()[i]).key
            == b.drop_last()[i].key && amount(a.drop_last()[i], what) == amount(
            b.drop_last()[i],
            what,
        ) by {
            assert(a[i].key == b[i].key);
        }
        lemma_total_same(a.drop_last(), b.drop_last(), key, what);
    }
}

/// The rows of all threads add up to what the logs add, each taken by
/// itself: the place of a log among the logs does not count.
pub proof fn lemma_total_by_log(
    threads: Seq<(u64, Vec<Measure>)>,
    mode: Hierarchy,
    key: Seq<char>,
    what: Figure,
)
    requires
        what is Calls || what is Cpu,
    ensures
        total_of(all_rows(threads, mode), key, what) == shares_of(threads, mode, key, what),
    decreases threads.len(),
{
    if threads.len() > 0 {
        let before = all_rows(threads.drop_last(), mode);
        let log = threads.last().1@;
        let rows = thread_rows(log, mode, (threads.len() - 1) as nat);
        lemma_total_by_log(threads.drop_last(), mode, key, what);
        lemma_total_concat(before, rows, key, what);
        lemma_total_same(rows, thread_rows(log, mode, 0), key, what);
    }
}

/// The logs without one of them add what all add, less what that one adds.
proof fn lemma_shares_remove(
    threads: Seq<(u64, Vec<Measure>)>,
    i: int,
    mode: Hierarchy,
    key: Seq<char>,
    what: Figure,
)
    requires
        0 <= i < threads.len(),
    ensures
        shares_of(threads, mode, key, what) == shares_of(threads.remove(i), mode, key, what)
            + share_of(threads[i].1, mode, key, what),
    decreases threads.len(),
{
    if i == threads.len() - 1 {
        assert(threads.remove(i) =~= threads.drop_last());
    } else {
        assert(threads.remove(i).drop_last() =~= threads.drop_last().remove(i));
        assert(threads.remove(i).last() == threads.last());
        lemma_shares_remove(threads.drop_last(), i, mode, key, what);
    }
}

/// The same logs in another order add the same.
proof fn lemma_shares_permuted(
    a: Seq<(u64, Vec<Measure>)>,
    b: Seq<(u64, Vec<Measure>)>,
    mode: Hierarchy,
    key: Seq<char>,
    what: Figure,
)
    requires
        a.to_multiset() == b.to_multiset(),
    ensures
        shares_of(a, mode, key, what) == shares_of(b, mode, key, what),
    decreases a.len(),
{
    broadcast use group_multiset_axioms;

    to_multiset_len(a);
    to_multiset_len(b);
    if a.len() > 0 {
        let x = a.last();
        let rest = a.drop_last();
        assert(a =~= rest.push(x));
        to_multiset_build(rest, x);
        to_multiset_contains(b, x);
        let i = choose|i: int| 0 <= i < b.len() && b[i] == x;
        to_multiset_remove(b, i);
        assert(rest.to_multiset() =~= b.remove(i).to_multiset());
        lemma_shares_permuted(rest, b.remove(i), mode, key, what);
        lemma_shares_remove(b, i, mode, key, what);
    }
}

/// The calls and the CPU time that the table gives to a scope do not depend
/// on the order in which the threads finished: two lists of the same logs
/// give every key the same calls and the same CPU time.
pub proof fn lemma_order_of_threads(
    a: Seq<(u64, Vec<Measure>)>,
    b: Seq<(u64, Vec<Measure>)>,
    mode: Hierarchy,
    key: Seq<char>,
)
    requires
        a.to_multiset() == b.to_multiset(),
    ensures
        total_of(all_rows(a, mode), key, Figure::Calls) == total_of(
            all_rows(b, mode),
            key,
            Figure::Calls,
        ),
        total_of(all_rows(a, mode), key, Figure::Cpu) == total_of(
            all_rows(b, mode),
            key,
            Figure::Cpu,
        ),
{
    lemma_total_by_log(a, mode, key, Figure::Calls);
    lemma_total_by_log(b, mode, key, Figure::Calls);
    lemma_shares_permuted(a, b, mode, key, Figure::Calls);
    lemma_total_by_log(a, mode, key, Figure::Cpu);
    lemma_total_by_log(b, mode, key, Figure::Cpu);
    lemma_shares_permuted(a, b, mode, key, Figure::Cpu);
}

} // verus!
