//! Rebuilds, from one thread's flat log of events, the forest of scopes that
//! the thread went through.
//!
//! A scope is known by its path: its own name behind the names of the scopes
//! that enclose it. The forest is held as a list of scopes in the order in
//! which they were first entered, so a scope always stands behind the scope
//! that encloses it.

use crate::measure::{span, Measure, MeasureType};
use crate::rows::Hierarchy;
use vstd::prelude::*;

verus! {

/// One scope of the forest: the path that identifies it and the durations of
/// the calls that ended in it, in the order in which they ended.
pub struct ScopeRecord {
    pub path: Seq<Seq<char>>,
    pub durations: Seq<u64>,
}

/// Where a walk through a log stands: the scopes seen so far, the path of the
/// scope that the innermost pending call is in (empty where no call is
/// pending), and for each pending call, outermost first, the time at which
/// it began and the path of the scope that it is in.
pub struct Walk {
    pub records: Seq<ScopeRecord>,
    pub open: Seq<Seq<char>>,
    pub starts: Seq<u64>,
    pub nodes: Seq<Seq<Seq<char>>>,
}

/// Some scope of `records` has the path `path`.
pub open spec fn has_path(records: Seq<ScopeRecord>, path: Seq<Seq<char>>) -> bool {
    exists|i: int| 0 <= i < records.len() && (#[trigger] records[i]).path == path
}

/// `records` with the duration `d` added to the scope whose path is `path`.
pub open spec fn credit(records: Seq<ScopeRecord>, path: Seq<Seq<char>>, d: u64) -> Seq<
    ScopeRecord,
> {
    Seq::new(
        records.len(),
        |i: int|
            if records[i].path == path {
                ScopeRecord { path: records[i].path, durations: records[i].durations.push(d) }
            } else {
                records[i]
            },
    )
}

/// The walk before any event.
pub open spec fn walk_start() -> Walk {
    Walk { records: Seq::empty(), open: Seq::empty(), starts: Seq::empty(), nodes: Seq::empty() }
}

/// A call of `name` made in the scope `open` stays in that scope: scopes are
/// collapsed and the scope has that very name, so it calls itself.
pub open spec fn stays(open: Seq<Seq<char>>, name: Seq<char>, mode: Hierarchy) -> bool {
    mode == Hierarchy::Collapsed && open.len() > 0 && open.last() == name
}

/// The path of the scope that a call of `name` made in the scope `open`
/// goes to: `open` itself where the call stays, else the scope of that name
/// under `open`.
pub open spec fn target(open: Seq<Seq<char>>, name: Seq<char>, mode: Hierarchy) -> Seq<Seq<char>> {
    if stays(open, name, mode) {
        open
    } else {
        open.push(name)
    }
}

/// Entering `name` at `time`. Where scopes are collapsed and the open scope
/// has that name, the call stays in the open scope. Else the scope of that
/// name under the open scope becomes the open one, and joins the forest if
/// it is new.
pub open spec fn enter(w: Walk, name: Seq<char>, time: u64, mode: Hierarchy) -> Walk {
    let path = target(w.open, name, mode);
    Walk {
        records: if has_path(w.records, path) {
            w.records
        } else {
            w.records.push(ScopeRecord { path, durations: Seq::empty() })
        },
        open: path,
        starts: w.starts.push(time),
        nodes: w.nodes.push(path),
    }
}

/// Leaving at `time`: the innermost pending call ends, its scope is credited
/// with the time since the call began, and the scope of the call around it
/// becomes the open one. Where no call is pending the walk stays as it is.
pub open spec fn exit(w: Walk, time: u64) -> Walk {
    if w.nodes.len() == 0 || w.starts.len() == 0 {
        w
    } else {
        Walk {
            records: credit(w.records, w.open, span(w.starts.last(), time)),
            open: if w.nodes.len() > 1 {
                w.nodes[w.nodes.len() - 2]
            } else {
                Seq::empty()
            },
            starts: w.starts.drop_last(),
            nodes: w.nodes.drop_last(),
        }
    }
}

/// The walk after one more event.
pub open spec fn step(w: Walk, m: Measure, mode: Hierarchy) -> Walk {
    match m.ty {
        MeasureType::Start { name } => enter(w, name@, m.time, mode),
        MeasureType::End => exit(w, m.time),
    }
}

/// The walk after all of `measures`.
pub open spec fn walk(measures: Seq<Measure>, mode: Hierarchy) -> Walk
    decreases measures.len(),
{
    if measures.len() == 0 {
        walk_start()
    } else {
        step(walk(measures.drop_last(), mode), measures.last(), mode)
    }
}

/// The forest that `measures` describe.
pub open spec fn forest_of(measures: Seq<Measure>, mode: Hierarchy) -> Seq<ScopeRecord> {
    walk(measures, mode).records
}

/// The number of calls that are pending after `measures`: each `Start` adds
/// one, each `End` takes one away where there is one.
pub open spec fn open_depth(measures: Seq<Measure>) -> nat
    decreases measures.len(),
{
    if measures.len() == 0 {
        0
    } else {
        let before = open_depth(measures.drop_last());
        if measures.last().ty is Start {
            before + 1
        } else if before > 0 {
            (before - 1) as nat
        } else {
            0
        }
    }
}

/// Every `End` of `measures` closes a scope: at none of them is the stack of
/// open scopes empty.
pub open spec fn exits_matched(measures: Seq<Measure>) -> bool {
    forall|i: int|
        0 <= i < measures.len() && (#[trigger] measures[i]).ty is End ==> open_depth(
            measures.take(i),
        ) > 0
}

/// Every `End` of `measures` closes a scope, and none is left open.
pub open spec fn balanced(measures: Seq<Measure>) -> bool {
    exits_matched(measures) && open_depth(measures) == 0
}

/// The walk over the first `k + 1` events is one step from the walk over the
/// first `k`.
pub proof fn lemma_walk_take(measures: Seq<Measure>, k: int, mode: Hierarchy)
    requires
        0 <= k < measures.len(),
    ensures
        walk(measures.take(k + 1), mode) == step(walk(measures.take(k), mode), measures[k], mode),
{
    assert(measures.take(k + 1).drop_last() =~= measures.take(k));
    assert(measures.take(k + 1).last() == measures[k]);
}

/// The depth over the first `k + 1` events, from the depth over the first
/// `k`.
pub proof fn lemma_depth_take(measures: Seq<Measure>, k: int)
    requires
        0 <= k < measures.len(),
    ensures
        open_depth(measures.take(k + 1)) == if measures[k].ty is Start {
            open_depth(measures.take(k)) + 1
        } else if open_depth(measures.take(k)) > 0 {
            (open_depth(measures.take(k)) - 1) as nat
        } else {
            0nat
        },
{
    assert(measures.take(k + 1).drop_last() =~= measures.take(k));
    assert(measures.take(k + 1).last() == measures[k]);
}

/// As many calls are pending in a walk as the depth says.
pub proof fn lemma_walk_depth(measures: Seq<Measure>, mode: Hierarchy)
    ensures
        walk(measures, mode).nodes.len() == open_depth(measures),
        walk(measures, mode).starts.len() == open_depth(measures),
    decreases measures.len(),
{
    if measures.len() > 0 {
        lemma_walk_depth(measures.drop_last(), mode);
    }
}

/// Where every `End` among the first `k` events closes a scope and the next
/// event is no `End` that finds none open, every `End` among the first
/// `k + 1` closes a scope.
proof fn lemma_matched_take(measures: Seq<Measure>, k: int)
    requires
        0 <= k < measures.len(),
        exits_matched(measures.take(k)),
        measures[k].ty is End ==> open_depth(measures.take(k)) > 0,
    ensures
        exits_matched(measures.take(k + 1)),
{
    let before = measures.take(k);
    let after = measures.take(k + 1);
    assert forall|i: int| 0 <= i < after.len() && (#[trigger] after[i]).ty is End implies open_depth(
        after.take(i),
    ) > 0 by {
        if i < k {
            assert(before[i] == after[i]);
            assert(after.take(i) =~= before.take(i));
        } else {
            assert(after.take(i) =~= before);
            assert(after[i] == measures[k]);
        }
    }
}

/// An `End` that finds no scope open shows that not every `End` closes a
/// scope.
proof fn lemma_unmatched_found(measures: Seq<Measure>, k: int)
    requires
        0 <= k < measures.len(),
        measures[k].ty is End,
        open_depth(measures.take(k)) == 0,
    ensures
        !exits_matched(measures),
{
}

/// The position of the first `End` of `measures` that finds no scope open,
/// or `None` where every `End` closes a scope.
pub fn first_unmatched_exit(measures: &Vec<Measure>) -> (found: Option<usize>)
    ensures
        found.is_none() <==> exits_matched(measures@),
        match found {
            Some(at) => at < measures.len() && measures[at as int].ty is End && open_depth(
                measures@.take(at as int),
            ) == 0 && exits_matched(measures@.take(at as int)),
            None => true,
        },
{
    let mut depth: usize = 0;
    let mut k: usize = 0;
    while k < measures.len()
        invariant
            k <= measures.len(),
            depth == open_depth(measures@.take(k as int)),
            depth <= k,
            exits_matched(measures@.take(k as int)),
        decreases measures.len() - k,
    {
        proof {
            lemma_depth_take(measures@, k as int);
        }
        if measures[k].is_start() {
            depth = depth + 1;
        } else {
            if depth == 0 {
                proof {
                    lemma_unmatched_found(measures@, k as int);
                }
                return Some(k);
            }
            depth = depth - 1;
        }
        proof {
            lemma_matched_take(measures@, k as int);
        }
        k = k + 1;
    }
    proof {
        assert(measures@.take(k as int) =~= measures@);
    }
    None
}

/// The number of scopes that are still open at the end of `measures`.
pub fn open_scopes(measures: &Vec<Measure>) -> (depth: usize)
    ensures
        depth == open_depth(measures@),
{
    let mut depth: usize = 0;
    let mut k: usize = 0;
    while k < measures.len()
        invariant
            k <= measures.len(),
            depth == open_depth(measures@.take(k as int)),
            depth <= k,
        decreases measures.len() - k,
    {
        proof {
            lemma_depth_take(measures@, k as int);
        }
        if measures[k].is_start() {
            depth = depth + 1;
        } else if depth > 0 {
            depth = depth - 1;
        }
        k = k + 1;
    }
    proof {
        assert(measures@.take(k as int) =~= measures@);
    }
    depth
}

/// `path` names a scope directly under the scope `parent` (a root where
/// `parent` is empty).
pub open spec fn is_child(path: Seq<Seq<char>>, parent: Seq<Seq<char>>) -> bool {
    path.len() == parent.len() + 1 && path.drop_last() == parent
}

/// The scopes directly under `parent`, each as its name and its position in
/// `records`, in the order in which they were first entered.
pub open spec fn children_under(records: Seq<ScopeRecord>, parent: Seq<Seq<char>>) -> Seq<
    (Seq<char>, usize),
>
    decreases records.len(),
{
    if records.len() == 0 {
        Seq::empty()
    } else {
        let rest = children_under(records.drop_last(), parent);
        let r = records.last();
        if is_child(r.path, parent) {
            rest.push((r.path.last(), (records.len() - 1) as usize))
        } else {
            rest
        }
    }
}

/// What holds of every forest that a walk builds: a path has at least one
/// name and no more names than scopes stand before and at its place, no two
/// scopes share a path, and the scope around a scope stands before it.
pub open spec fn records_wf(records: Seq<ScopeRecord>) -> bool {
    &&& forall|i: int|
        0 <= i < records.len() ==> 1 <= (#[trigger] records[i]).path.len() <= i + 1
    &&& forall|i: int, j: int|
        0 <= i < j < records.len() ==> (#[trigger] records[i]).path != (#[trigger] records[j]).path
    &&& forall|j: int|
        0 <= j < records.len() && (#[trigger] records[j]).path.len() > 1 ==> exists|i: int|
            0 <= i < j && (#[trigger] records[i]).path == records[j].path.drop_last()
}

/// What holds of every walk: its forest is well formed, one start time is
/// kept for each pending call, the scope of each pending call is in the
/// forest, and the open scope is that of the innermost pending call.
pub open spec fn walk_wf(w: Walk) -> bool {
    &&& records_wf(w.records)
    &&& w.starts.len() == w.nodes.len()
    &&& w.open == if w.nodes.len() > 0 {
        w.nodes.last()
    } else {
        Seq::empty()
    }
    &&& forall|l: int| 0 <= l < w.nodes.len() ==> has_path(w.records, #[trigger] w.nodes[l])
}

/// A new scope directly under a scope of the forest, or a new outermost
/// scope, keeps the forest well formed.
pub proof fn lemma_grow_wf(records: Seq<ScopeRecord>, above: Seq<Seq<char>>, name: Seq<char>)
    requires
        records_wf(records),
        above.len() > 0 ==> has_path(records, above),
        !has_path(records, above.push(name)),
    ensures
        records_wf(records.push(ScopeRecord { path: above.push(name), durations: Seq::empty() })),
{
    let path = above.push(name);
    let after = records.push(ScopeRecord { path, durations: Seq::empty() });
    let n = records.len() as int;
    assert(after[n].path == path);
    assert(path.drop_last() =~= above);
    assert forall|j: int|
        0 <= j < after.len() && (#[trigger] after[j]).path.len() > 1 implies exists|i: int|
        0 <= i < j && (#[trigger] after[i]).path == after[j].path.drop_last() by {
        if j < n {
            assert(records[j].path.len() > 1);
            let i = choose|i: int|
                0 <= i < j && (#[trigger] records[i]).path == records[j].path.drop_last();
            assert(after[i].path == after[j].path.drop_last());
        } else {
            let i = choose|i: int| 0 <= i < records.len() && (#[trigger] records[i]).path == above;
            assert(after[i].path == after[j].path.drop_last());
        }
    }
    assert forall|i: int, j: int| 0 <= i < j < after.len() implies (#[trigger] after[i]).path != (
    #[trigger] after[j]).path by {
        if j < n {
            assert(records[i].path != records[j].path);
        } else {
            assert(records[i].path != path);
        }
    }
    assert forall|i: int| 0 <= i < after.len() implies 1 <= (#[trigger] after[i]).path.len() <= i
        + 1 by {
        if i < n {
            assert(1 <= records[i].path.len() <= i + 1);
        } else if above.len() > 0 {
            let p = choose|p: int| 0 <= p < records.len() && (#[trigger] records[p]).path == above;
            assert(1 <= records[p].path.len() <= p + 1);
        }
    }
}

/// A credit keeps the forest well formed and the paths as they are.
pub proof fn lemma_credit_wf(records: Seq<ScopeRecord>, path: Seq<Seq<char>>, d: u64)
    requires
        records_wf(records),
    ensures
        records_wf(credit(records, path, d)),
        forall|p: Seq<Seq<char>>| has_path(records, p) ==> has_path(credit(records, path, d), p),
{
    let after = credit(records, path, d);
    assert forall|j: int|
        0 <= j < after.len() && (#[trigger] after[j]).path.len() > 1 implies exists|i: int|
        0 <= i < j && (#[trigger] after[i]).path == after[j].path.drop_last() by {
        assert(records[j].path.len() > 1);
        let i = choose|i: int|
            0 <= i < j && (#[trigger] records[i]).path == records[j].path.drop_last();
        assert(after[i].path == after[j].path.drop_last());
    }
    assert forall|i: int, j: int| 0 <= i < j < after.len() implies (#[trigger] after[i]).path != (
    #[trigger] after[j]).path by {
        assert(records[i].path != records[j].path);
    }
    assert forall|i: int| 0 <= i < after.len() implies 1 <= (#[trigger] after[i]).path.len() <= i
        + 1 by {
        assert(1 <= records[i].path.len() <= i + 1);
    }
    assert forall|p: Seq<Seq<char>>| has_path(records, p) implies has_path(after, p) by {
        let i = choose|i: int| 0 <= i < records.len() && (#[trigger] records[i]).path == p;
        assert(after[i].path == p);
    }
}

/// Entering a scope keeps a walk well formed.
pub proof fn lemma_enter_wf(w: Walk, name: Seq<char>, time: u64, mode: Hierarchy)
    requires
        walk_wf(w),
    ensures
        walk_wf(enter(w, name, time, mode)),
{
    let path = target(w.open, name, mode);
    let after = enter(w, name, time, mode);
    if w.open.len() > 0 {
        assert(has_path(w.records, w.nodes[w.nodes.len() - 1]));
    }
    if !has_path(w.records, path) {
        lemma_grow_wf(w.records, w.open, name);
        assert(after.records[w.records.len() as int].path == path);
    }
    assert forall|l: int| 0 <= l < after.nodes.len() implies has_path(
        after.records,
        #[trigger] after.nodes[l],
    ) by {
        if l < w.nodes.len() {
            assert(has_path(w.records, w.nodes[l]));
            let i = choose|i: int|
                0 <= i < w.records.len() && (#[trigger] w.records[i]).path == w.nodes[l];
            assert(after.records[i].path == after.nodes[l]);
        } else if has_path(w.records, path) {
            let i = choose|i: int| 0 <= i < w.records.len() && (#[trigger] w.records[i]).path == path;
            assert(after.records[i].path == path);
        }
    }
}

/// Leaving the open scope keeps a walk well formed.
pub proof fn lemma_exit_wf(w: Walk, time: u64)
    requires
        walk_wf(w),
    ensures
        walk_wf(exit(w, time)),
{
    if w.nodes.len() > 0 {
        let after = exit(w, time);
        lemma_credit_wf(w.records, w.open, span(w.starts.last(), time));
        assert forall|l: int| 0 <= l < after.nodes.len() implies has_path(
            after.records,
            #[trigger] after.nodes[l],
        ) by {
            assert(has_path(w.records, w.nodes[l]));
        }
    }
}

/// Every walk is well formed.
pub proof fn lemma_walk_wf(measures: Seq<Measure>, mode: Hierarchy)
    ensures
        walk_wf(walk(measures, mode)),
    decreases measures.len(),
{
    if measures.len() > 0 {
        lemma_walk_wf(measures.drop_last(), mode);
        let w = walk(measures.drop_last(), mode);
        match measures.last().ty {
            MeasureType::Start { name } => lemma_enter_wf(w, name@, measures.last().time, mode),
            MeasureType::End => lemma_exit_wf(w, measures.last().time),
        }
    }
}

/// The pending calls of a walk in which no call stays in its scope go down
/// one scope with each call: each is in the scope directly under the scope
/// of the call around it.
pub open spec fn chained(w: Walk) -> bool {
    &&& w.nodes.len() == w.open.len()
    &&& w.starts.len() == w.open.len()
    &&& forall|l: int| 0 <= l < w.nodes.len() ==> #[trigger] w.nodes[l] == w.open.take(l + 1)
}

/// Where no call stays in its scope, entering goes one scope down.
pub proof fn lemma_enter_chained(w: Walk, name: Seq<char>, time: u64, mode: Hierarchy)
    requires
        chained(w),
        !stays(w.open, name, mode),
    ensures
        chained(enter(w, name, time, mode)),
        enter(w, name, time, mode).open == w.open.push(name),
{
    let after = enter(w, name, time, mode);
    assert forall|l: int| 0 <= l < after.nodes.len() implies #[trigger] after.nodes[l]
        == after.open.take(l + 1) by {
        if l < w.nodes.len() {
            assert(w.nodes[l] == w.open.take(l + 1));
            assert(after.open.take(l + 1) =~= w.open.take(l + 1));
        } else {
            assert(after.open.take(l + 1) =~= after.open);
        }
    }
}

/// Where no call stays in its scope, leaving goes one scope up.
pub proof fn lemma_exit_chained(w: Walk, time: u64)
    requires
        chained(w),
        w.open.len() > 0,
    ensures
        chained(exit(w, time)),
        exit(w, time).open == w.open.drop_last(),
        exit(w, time).records == credit(w.records, w.open, span(w.starts.last(), time)),
        exit(w, time).starts == w.starts.drop_last(),
{
    let after = exit(w, time);
    if w.nodes.len() > 1 {
        assert(w.nodes[w.nodes.len() - 2] == w.open.take(w.nodes.len() - 1));
        assert(w.open.take(w.nodes.len() - 1) =~= w.open.drop_last());
    } else {
        assert(w.open.drop_last() =~= Seq::<Seq<char>>::empty());
    }
    assert forall|l: int| 0 <= l < after.nodes.len() implies #[trigger] after.nodes[l]
        == after.open.take(l + 1) by {
        assert(w.nodes[l] == w.open.take(l + 1));
        assert(after.open.take(l + 1) =~= w.open.take(l + 1));
    }
}

/// No call of `measures` is made from within the scope of the same name:
/// no scope calls itself directly.
pub open spec fn no_self_calls(measures: Seq<Measure>) -> bool {
    forall|i: int|
        0 <= i < measures.len() && (#[trigger] measures[i]).ty is Start ==> !stays(
            walk(measures.take(i), Hierarchy::Collapsed).open,
            measures[i].ty->name@,
            Hierarchy::Collapsed,
        )
}

/// The way in which `measures` are walked lets no call stay in its scope:
/// depths are kept apart, or no scope calls itself directly.
pub open spec fn unfolded(measures: Seq<Measure>, mode: Hierarchy) -> bool {
    mode == Hierarchy::Deep || no_self_calls(measures)
}

/// Without its last event a log is still walked without a call that stays.
pub proof fn lemma_unfolded_prefix(measures: Seq<Measure>, mode: Hierarchy)
    requires
        unfolded(measures, mode),
        measures.len() > 0,
    ensures
        unfolded(measures.drop_last(), mode),
        measures.last().ty is Start ==> !stays(
            walk(measures.drop_last(), mode).open,
            measures.last().ty->name@,
            mode,
        ),
{
    let before = measures.drop_last();
    if mode == Hierarchy::Collapsed {
        assert forall|i: int| 0 <= i < before.len() && (#[trigger] before[i]).ty is Start implies !stays(
            walk(before.take(i), Hierarchy::Collapsed).open,
            before[i].ty->name@,
            Hierarchy::Collapsed,
        ) by {
            assert(before[i] == measures[i]);
            assert(before.take(i) =~= measures.take(i));
        }
        assert(measures.take(measures.len() - 1) =~= before);
        assert(measures[measures.len() - 1] == measures.last());
    }
}

/// A walk in which no call stays in its scope is chained.
pub proof fn lemma_walk_chained(measures: Seq<Measure>, mode: Hierarchy)
    requires
        unfolded(measures, mode),
        exits_matched(measures),
    ensures
        chained(walk(measures, mode)),
    decreases measures.len(),
{
    if measures.len() > 0 {
        let before = measures.drop_last();
        lemma_unfolded_prefix(measures, mode);
        lemma_matched_prefix(measures);
        lemma_walk_chained(before, mode);
        lemma_walk_depth(before, mode);
        let w = walk(before, mode);
        match measures.last().ty {
            MeasureType::Start { name } => lemma_enter_chained(w, name@, measures.last().time, mode),
            MeasureType::End => lemma_exit_chained(w, measures.last().time),
        }
    } else {
        assert(walk(measures, mode).open.take(0) =~= Seq::<Seq<char>>::empty());
    }
}

/// A log all of whose `End`s close a scope stays so without its last event.
pub proof fn lemma_matched_prefix(measures: Seq<Measure>)
    requires
        exits_matched(measures),
        measures.len() > 0,
    ensures
        exits_matched(measures.drop_last()),
        measures.last().ty is End ==> open_depth(measures.drop_last()) > 0,
{
    let before = measures.drop_last();
    assert forall|i: int| 0 <= i < before.len() && (#[trigger] before[i]).ty is End implies open_depth(
        before.take(i),
    ) > 0 by {
        assert(before[i] == measures[i]);
        assert(before.take(i) =~= measures.take(i));
    }
    assert(measures.take(measures.len() - 1) =~= before);
    assert(measures[measures.len() - 1] == measures.last());
}

/// No scope of `records` stands directly under a scope of its own name.
pub open spec fn folded(records: Seq<ScopeRecord>) -> bool {
    forall|i: int|
        0 <= i < records.len() && (#[trigger] records[i]).path.len() > 1
            ==> records[i].path[records[i].path.len() - 1] != records[i].path[records[i].path.len()
            - 2]
}

/// Where scopes are collapsed, a scope that calls itself stays one scope:
/// the forest has no scope directly under a scope of its own name, however
/// deep the calls go.
pub proof fn lemma_self_calls_fold(measures: Seq<Measure>)
    ensures
        folded(forest_of(measures, Hierarchy::Collapsed)),
    decreases measures.len(),
{
    if measures.len() > 0 {
        lemma_self_calls_fold(measures.drop_last());
        let w = walk(measures.drop_last(), Hierarchy::Collapsed);
        let after = walk(measures, Hierarchy::Collapsed);
        assert forall|i: int|
            0 <= i < after.records.len() && (#[trigger] after.records[i]).path.len()
                > 1 implies after.records[i].path[after.records[i].path.len() - 1]
            != after.records[i].path[after.records[i].path.len() - 2] by {
            if i < w.records.len() {
                assert(after.records[i].path == w.records[i].path);
            } else {
                lemma_walk_wf(measures.drop_last(), Hierarchy::Collapsed);
                match measures.last().ty {
                    MeasureType::Start { name } => {
                        if stays(w.open, name@, Hierarchy::Collapsed) {
                            assert(has_path(w.records, w.nodes[w.nodes.len() - 1]));
                        }
                        assert(after.records[i].path == w.open.push(name@));
                    },
                    MeasureType::End => {},
                }
            }
        }
    }
}

/// A forest has no more scopes than its log has events.
pub proof fn lemma_forest_len(measures: Seq<Measure>, mode: Hierarchy)
    ensures
        forest_of(measures, mode).len() <= measures.len(),
    decreases measures.len(),
{
    if measures.len() > 0 {
        lemma_forest_len(measures.drop_last(), mode);
    }
}

/// The path of the scope at `parent`, the empty path where there is none.
pub open spec fn path_of(records: Seq<ScopeRecord>, parent: Option<usize>) -> Seq<Seq<char>> {
    match parent {
        Some(p) => records[p as int].path,
        None => Seq::empty(),
    }
}

/// The position of `parent` as a number, with -1 where there is none.
pub open spec fn level_of(parent: Option<usize>) -> int {
    match parent {
        Some(p) => p as int,
        None => -1,
    }
}

/// The scope around the scope at `at`, where it has one, is the only scope
/// with that path and stands before it.
pub proof fn lemma_parent_before(records: Seq<ScopeRecord>, at: int)
    requires
        records_wf(records),
        0 <= at < records.len(),
    ensures
        forall|p: int|
            0 <= p < records.len() && is_child(records[at].path, #[trigger] records[p].path) ==> p
                < at,
{
    assert forall|p: int|
        0 <= p < records.len() && is_child(records[at].path, #[trigger] records[p].path) implies p
        < at by {
        assert(records[p].path.len() >= 1);
        assert(records[at].path.len() > 1);
        let i = choose|i: int|
            0 <= i < at && (#[trigger] records[i]).path == records[at].path.drop_last();
        if i != p {
            if i < p {
                assert(records[i].path != records[p].path);
            } else {
                assert(records[p].path != records[i].path);
            }
        }
    }
}

/// The scopes below the scope at `parent` (all scopes where `parent` is
/// `None`) from its `c`-th child on, in pre-order: each child is followed by
/// everything below it, then comes the child that was first entered next.
pub open spec fn preorder(records: Seq<ScopeRecord>, parent: Option<usize>, c: int) -> Seq<int>
    decreases records.len() - level_of(parent), children_under(records, path_of(records, parent)).len() - c,
{
    let kids = children_under(records, path_of(records, parent));
    if level_of(parent) >= records.len() || c < 0 || c >= kids.len() {
        Seq::empty()
    } else {
        let child = kids[c].1;
        let below = if level_of(parent) < child < records.len() {
            preorder(records, Some(child), 0)
        } else {
            Seq::empty()
        };
        seq![child as int] + below + preorder(records, parent, c + 1)
    }
}

/// All scopes of the forest in pre-order.
pub open spec fn traversal(records: Seq<ScopeRecord>) -> Seq<int> {
    preorder(records, None, 0)
}

} // verus!
