//! Every call is counted once: a forest holds one duration for each scope
//! that was entered and left, in the scope that was entered.

use crate::measure::Measure;
use crate::rows::Hierarchy;
use crate::tree::{
    balanced, credit, exit, exits_matched, forest_of, has_path, lemma_matched_prefix,
    lemma_walk_depth, lemma_walk_wf, open_depth, walk, ScopeRecord,
};
use vstd::prelude::*;

verus! {

/// The number of durations that the scopes of `records` hold together.
pub open spec fn count_durations(records: Seq<ScopeRecord>) -> nat
    decreases records.len(),
{
    if records.len() == 0 {
        0
    } else {
        count_durations(records.drop_last()) + records.last().durations.len()
    }
}

/// The number of `Start` events of `measures`.
pub open spec fn count_starts(measures: Seq<Measure>) -> nat
    decreases measures.len(),
{
    if measures.len() == 0 {
        0
    } else {
        count_starts(measures.drop_last()) + if measures.last().ty is Start {
            1nat
        } else {
            0nat
        }
    }
}

/// How often the scope with the path `path` is entered in `measures`.
pub open spec fn visits(measures: Seq<Measure>, mode: Hierarchy, path: Seq<Seq<char>>) -> nat
    decreases measures.len(),
{
    if measures.len() == 0 {
        0
    } else {
        visits(measures.drop_last(), mode, path) + if measures.last().ty is Start && walk(
            measures,
            mode,
        ).open == path {
            1nat
        } else {
            0nat
        }
    }
}

/// The number of pending calls that are in the scope with the path `path`,
/// where `nodes` are the scopes of the pending calls.
pub open spec fn pending(nodes: Seq<Seq<Seq<char>>>, path: Seq<Seq<char>>) -> nat
    decreases nodes.len(),
{
    if nodes.len() == 0 {
        0
    } else {
        pending(nodes.drop_last(), path) + if nodes.last() == path {
            1nat
        } else {
            0nat
        }
    }
}

/// The scope with the path `path` is the scope with the path `open` or
/// encloses it.
pub open spec fn encloses(path: Seq<Seq<char>>, open: Seq<Seq<char>>) -> bool {
    path.len() <= open.len() && open.take(path.len() as int) == path
}

/// Crediting a path that no scope has changes nothing.
proof fn lemma_credit_absent(records: Seq<ScopeRecord>, path: Seq<Seq<char>>, d: u64)
    requires
        !has_path(records, path),
    ensures
        credit(records, path, d) == records,
{
    assert forall|i: int| 0 <= i < records.len() implies credit(records, path, d)[i]
        == records[i] by {
        assert(records[i].path != path);
    }
    assert(credit(records, path, d) =~= records);
}

/// Crediting the one scope that has the path adds one duration.
proof fn lemma_credit_counts(records: Seq<ScopeRecord>, path: Seq<Seq<char>>, d: u64)
    requires
        has_path(records, path),
        forall|i: int, j: int|
            0 <= i < j < records.len() ==> (#[trigger] records[i]).path != (
            #[trigger] records[j]).path,
    ensures
        count_durations(credit(records, path, d)) == count_durations(records) + 1,
    decreases records.len(),
{
    let after = credit(records, path, d);
    let rest = records.drop_last();
    assert(after.drop_last() =~= credit(rest, path, d));
    if records.last().path == path {
        assert forall|i: int| 0 <= i < rest.len() implies (#[trigger] rest[i]).path != path by {
            assert(records[i].path != records[records.len() - 1].path);
        }
        lemma_credit_absent(rest, path, d);
    } else {
        let k = choose|k: int| 0 <= k < records.len() && (#[trigger] records[k]).path == path;
        assert(rest[k].path == path);
        lemma_credit_counts(rest, path, d);
    }
}

/// A scope that the forest does not have was never entered.
proof fn lemma_unvisited(measures: Seq<Measure>, mode: Hierarchy, path: Seq<Seq<char>>)
    requires
        !has_path(forest_of(measures, mode), path),
    ensures
        visits(measures, mode, path) == 0,
    decreases measures.len(),
{
    if measures.len() > 0 {
        let before = walk(measures.drop_last(), mode);
        let after = walk(measures, mode);
        if has_path(before.records, path) {
            let i = choose|i: int|
                0 <= i < before.records.len() && (#[trigger] before.records[i]).path == path;
            assert(after.records[i].path == path);
        }
        lemma_unvisited(measures.drop_last(), mode, path);
        if measures.last().ty is Start && after.open == path {
            if has_path(before.records, path) {
            } else {
                assert(after.records[before.records.len() as int].path == path);
            }
        }
    }
}

/// No pending call is in a scope that is not among the scopes of the
/// pending calls.
proof fn lemma_pending_absent(nodes: Seq<Seq<Seq<char>>>, path: Seq<Seq<char>>)
    requires
        forall|l: int| 0 <= l < nodes.len() ==> #[trigger] nodes[l] != path,
    ensures
        pending(nodes, path) == 0,
    decreases nodes.len(),
{
    if nodes.len() > 0 {
        assert(nodes[nodes.len() - 1] != path);
        assert forall|l: int| 0 <= l < nodes.drop_last().len() implies #[trigger] nodes.drop_last()[l]
            != path by {
            assert(nodes[l] != path);
        }
        lemma_pending_absent(nodes.drop_last(), path);
    }
}

/// What entering a scope does to which scopes are open.
pub proof fn lemma_encloses_push(p: Seq<Seq<char>>, open: Seq<Seq<char>>, name: Seq<char>)
    ensures
        encloses(open.push(name), open.push(name)),
        !encloses(open.push(name), open),
        p != open.push(name) ==> encloses(p, open.push(name)) == encloses(p, open),
{
    let path = open.push(name);
    assert(path.take(path.len() as int) =~= path);
    if p != path {
        if p.len() <= open.len() {
            assert(path.take(p.len() as int) =~= open.take(p.len() as int));
        }
    }
}

/// What leaving the open scope does to which scopes are open.
pub proof fn lemma_encloses_pop(p: Seq<Seq<char>>, open: Seq<Seq<char>>)
    requires
        open.len() > 0,
    ensures
        encloses(open, open),
        !encloses(open, open.drop_last()),
        p != open ==> encloses(p, open.drop_last()) == encloses(p, open),
{
    assert(open.take(open.len() as int) =~= open);
    if p != open {
        if p.len() < open.len() {
            assert(open.drop_last().take(p.len() as int) =~= open.take(p.len() as int));
        }
    }
}

/// The scopes of `measures` hold a duration for every `Start` but those of
/// the pending calls, and each scope for every time it was entered but for
/// the calls that are pending in it.
pub open spec fn counted(measures: Seq<Measure>, mode: Hierarchy) -> bool {
    &&& count_durations(forest_of(measures, mode)) + open_depth(measures) == count_starts(measures)
    &&& forall|i: int|
        0 <= i < forest_of(measures, mode).len() ==> (#[trigger] forest_of(
            measures,
            mode,
        )[i]).durations.len() + pending(
            walk(measures, mode).nodes,
            forest_of(measures, mode)[i].path,
        ) == visits(measures, mode, forest_of(measures, mode)[i].path)
}

/// A `Start` keeps a log counted.
proof fn lemma_counts_start(measures: Seq<Measure>, mode: Hierarchy)
    requires
        measures.len() > 0,
        measures.last().ty is Start,
        counted(measures.drop_last(), mode),
    ensures
        counted(measures, mode),
{
    let prev = measures.drop_last();
    lemma_walk_wf(prev, mode);
    let w = walk(prev, mode);
    let next = walk(measures, mode);
    let path = next.open;
    assert(next.nodes.drop_last() =~= w.nodes);
    assert(next.nodes.last() == path);
    if has_path(w.records, path) {
    } else {
        assert(next.records.drop_last() =~= w.records);
        lemma_unvisited(prev, mode, path);
        assert forall|l: int| 0 <= l < w.nodes.len() implies #[trigger] w.nodes[l] != path by {
            assert(has_path(w.records, w.nodes[l]));
        }
        lemma_pending_absent(w.nodes, path);
    }
    assert forall|i: int| 0 <= i < next.records.len() implies (#[trigger] next.records[i]).durations.len()
        + pending(next.nodes, next.records[i].path) == visits(measures, mode, next.records[i].path) by {
        if i < w.records.len() {
            assert(w.records[i].durations.len() + pending(w.nodes, w.records[i].path) == visits(
                prev,
                mode,
                w.records[i].path,
            ));
        }
    }
}

/// An `End` that closes a scope keeps a log counted.
proof fn lemma_counts_end(measures: Seq<Measure>, mode: Hierarchy)
    requires
        measures.len() > 0,
        measures.last().ty is End,
        open_depth(measures.drop_last()) > 0,
        counted(measures.drop_last(), mode),
    ensures
        counted(measures, mode),
{
    let prev = measures.drop_last();
    lemma_walk_wf(prev, mode);
    lemma_walk_depth(prev, mode);
    let w = walk(prev, mode);
    let next = walk(measures, mode);
    let path = w.open;
    let d = crate::measure::span(w.starts.last(), measures.last().time);
    assert(next == exit(w, measures.last().time));
    assert(next.records == credit(w.records, path, d));
    assert(path == w.nodes.last());
    assert(has_path(w.records, w.nodes[w.nodes.len() - 1]));
    lemma_credit_counts(w.records, path, d);
    assert forall|i: int| 0 <= i < next.records.len() implies (#[trigger] next.records[i]).durations.len()
        + pending(next.nodes, next.records[i].path) == visits(measures, mode, next.records[i].path) by {
        let p = w.records[i].path;
        assert(next.records[i].path == p);
        assert(w.records[i].durations.len() + pending(w.nodes, p) == visits(prev, mode, p));
    }
}

/// In a log all of whose `End`s close a scope, every `Start` has either
/// given a duration or left its call pending; and so has every entry into
/// each single scope.
pub proof fn lemma_counts(measures: Seq<Measure>, mode: Hierarchy)
    requires
        exits_matched(measures),
    ensures
        counted(measures, mode),
    decreases measures.len(),
{
    if measures.len() > 0 {
        lemma_matched_prefix(measures);
        lemma_counts(measures.drop_last(), mode);
        if measures.last().ty is Start {
            lemma_counts_start(measures, mode);
        } else {
            lemma_counts_end(measures, mode);
        }
    }
}

/// In the forest of a log in which every scope that is entered is left, the
/// scopes hold as many durations together as the log has `Start`s, and each
/// scope holds as many as it was entered. This is so however the forest is
/// built: with depths kept apart, and with a scope that calls itself held
/// as one.
pub proof fn lemma_one_duration_per_call(measures: Seq<Measure>, mode: Hierarchy)
    requires
        balanced(measures),
    ensures
        count_durations(forest_of(measures, mode)) == count_starts(measures),
        forall|i: int|
            0 <= i < forest_of(measures, mode).len() ==> (#[trigger] forest_of(
                measures,
                mode,
            )[i]).durations.len() == visits(measures, mode, forest_of(measures, mode)[i].path),
{
    lemma_counts(measures, mode);
    lemma_walk_depth(measures, mode);
    assert(walk(measures, mode).nodes =~= Seq::<Seq<Seq<char>>>::empty());
}

/// In the forest of a log all of whose `End`s close a scope, no scope holds
/// more durations than it was entered, and all together hold no more than
/// the log has `Start`s.
pub proof fn lemma_durations_within_calls(measures: Seq<Measure>, mode: Hierarchy)
    requires
        exits_matched(measures),
    ensures
        count_durations(forest_of(measures, mode)) <= count_starts(measures),
        forall|i: int|
            0 <= i < forest_of(measures, mode).len() ==> (#[trigger] forest_of(
                measures,
                mode,
            )[i]).durations.len() <= visits(measures, mode, forest_of(measures, mode)[i].path),
{
    lemma_counts(measures, mode);
}

} // verus!
