//! Time is nested as scopes are: where the clock does not run backwards, a
//! scope takes at least as long as the scopes directly under it take
//! together, and the outermost scopes together take no longer than the log
//! spans.

use crate::counting::{encloses, lemma_encloses_pop, lemma_encloses_push};
use crate::measure::{span, Measure};
use crate::rows::Hierarchy;
use crate::timing::{percent_of, sum};
use crate::tree::{
    balanced, chained, credit, enter, exit, exits_matched, forest_of, has_path, is_child,
    lemma_enter_chained, lemma_exit_chained, lemma_matched_prefix, lemma_unfolded_prefix,
    lemma_walk_chained, lemma_walk_depth, lemma_walk_wf, records_wf, stays, unfolded, walk,
    walk_wf, ScopeRecord, Walk,
};
use vstd::prelude::*;

verus! {

/// The clock readings of `measures` never go down.
pub open spec fn ordered(measures: Seq<Measure>) -> bool {
    forall|i: int, j: int|
        0 <= i <= j < measures.len() ==> (#[trigger] measures[i]).time <= (
        #[trigger] measures[j]).time
}

/// The time that the scope with the path `path` took in all its calls.
pub open spec fn own_total(records: Seq<ScopeRecord>, path: Seq<Seq<char>>) -> nat
    decreases records.len(),
{
    if records.len() == 0 {
        0
    } else {
        own_total(records.drop_last(), path) + if records.last().path == path {
            sum(records.last().durations)
        } else {
            0
        }
    }
}

/// The time that the scopes directly under `parent` took together (the
/// outermost scopes where `parent` is empty).
pub open spec fn kids_total(records: Seq<ScopeRecord>, parent: Seq<Seq<char>>) -> nat
    decreases records.len(),
{
    if records.len() == 0 {
        0
    } else {
        kids_total(records.drop_last(), parent) + if is_child(records.last().path, parent) {
            sum(records.last().durations)
        } else {
            0
        }
    }
}

/// The shares of `whole` that the outermost scopes take, added up.
pub open spec fn roots_percent(records: Seq<ScopeRecord>, whole: nat) -> nat
    decreases records.len(),
{
    if records.len() == 0 {
        0
    } else {
        roots_percent(records.drop_last(), whole) + if records.last().path.len() == 1 {
            percent_of(sum(records.last().durations), whole)
        } else {
            0
        }
    }
}

/// The path of the scope that is open at level `l`, the outermost open scope
/// being at level 0; the empty path at level -1.
pub open spec fn level_path(open: Seq<Seq<char>>, l: int) -> Seq<Seq<char>> {
    open.take(l + 1)
}

/// When the scope at level `l` was entered; at level -1, when the log began.
pub open spec fn level_start(w: Walk, first: u64, l: int) -> int {
    if l < 0 {
        first as int
    } else {
        w.starts[l] as int
    }
}

/// Up to when the scopes directly under the scope at level `l` have run:
/// until the one that is open was entered, or until now where none is open.
pub open spec fn level_bound(w: Walk, now: u64, l: int) -> int {
    if l + 1 < w.open.len() {
        w.starts[l + 1] as int
    } else {
        now as int
    }
}

/// What holds of a walk through a log whose clock does not run backwards,
/// which began at `first` and has come to `now`.
pub open spec fn timely(w: Walk, first: u64, now: u64) -> bool {
    &&& first <= now
    &&& forall|l: int| 0 <= l < w.starts.len() ==> first <= (#[trigger] w.starts[l]) <= now
    &&& forall|l: int, k: int|
        0 <= l <= k < w.starts.len() ==> (#[trigger] w.starts[l]) <= (#[trigger] w.starts[k])
    &&& forall|i: int|
        0 <= i < w.records.len() && !encloses((#[trigger] w.records[i]).path, w.open)
            ==> kids_total(w.records, w.records[i].path) <= own_total(
            w.records,
            w.records[i].path,
        )
    &&& forall|l: int|
        -1 <= l < w.open.len() ==> kids_total(w.records, #[trigger] level_path(w.open, l))
            + level_start(w, first, l) <= own_total(w.records, level_path(w.open, l))
            + level_bound(w, now, l)
}

/// The clock reading of the last event, `first` where there is none.
pub open spec fn now_of(measures: Seq<Measure>, first: u64) -> u64 {
    if measures.len() == 0 {
        first
    } else {
        measures.last().time
    }
}

/// A sum with one more duration.
proof fn lemma_sum_push(durations: Seq<u64>, d: u64)
    ensures
        sum(durations.push(d)) == sum(durations) + d,
{
    assert(durations.push(d).drop_last() =~= durations);
}

/// A new scope without calls changes no total.
proof fn lemma_totals_push(records: Seq<ScopeRecord>, path: Seq<Seq<char>>, p: Seq<Seq<char>>)
    ensures
        own_total(records.push(ScopeRecord { path, durations: Seq::empty() }), p) == own_total(
            records,
            p,
        ),
        kids_total(records.push(ScopeRecord { path, durations: Seq::empty() }), p) == kids_total(
            records,
            p,
        ),
{
    let r = ScopeRecord { path, durations: Seq::<u64>::empty() };
    assert(records.push(r).drop_last() =~= records);
}

/// What a credit does to the totals, whether the credited scope is there or
/// not.
proof fn lemma_credit_totals(
    records: Seq<ScopeRecord>,
    path: Seq<Seq<char>>,
    d: u64,
    p: Seq<Seq<char>>,
)
    requires
        forall|i: int, j: int|
            0 <= i < j < records.len() ==> (#[trigger] records[i]).path != (
            #[trigger] records[j]).path,
    ensures
        own_total(credit(records, path, d), p) == own_total(records, p) + if p == path && has_path(
            records,
            path,
        ) {
            d as nat
        } else {
            0
        },
        kids_total(credit(records, path, d), p) == kids_total(records, p) + if is_child(path, p)
            && has_path(records, path) {
            d as nat
        } else {
            0
        },
    decreases records.len(),
{
    if records.len() > 0 {
        let rest = records.drop_last();
        let last = records.last();
        assert(credit(records, path, d).drop_last() =~= credit(rest, path, d));
        lemma_credit_totals(rest, path, d, p);
        if last.path == path {
            lemma_sum_push(last.durations, d);
            assert(records[records.len() - 1].path == path);
            assert forall|i: int| 0 <= i < rest.len() implies (#[trigger] rest[i]).path != path by {
                assert(records[i].path != records[records.len() - 1].path);
            }
            assert(!has_path(rest, path));
        } else {
            if has_path(records, path) {
                let k = choose|k: int|
                    0 <= k < records.len() && (#[trigger] records[k]).path == path;
                assert(rest[k].path == path);
            } else {
                assert forall|i: int| 0 <= i < rest.len() implies (#[trigger] rest[i]).path
                    != path by {
                    assert(records[i].path == rest[i].path);
                }
            }
            if has_path(rest, path) {
                let k = choose|k: int| 0 <= k < rest.len() && (#[trigger] rest[k]).path == path;
                assert(records[k].path == path);
            }
        }
    }
}

/// Under a path that no scope has there are no scopes.
proof fn lemma_no_kids(records: Seq<ScopeRecord>, parent: Seq<Seq<char>>, n: int)
    requires
        records_wf(records),
        !has_path(records, parent),
        parent.len() > 0,
        0 <= n <= records.len(),
    ensures
        kids_total(records.take(n), parent) == 0,
    decreases n,
{
    if n > 0 {
        lemma_no_kids(records, parent, n - 1);
        assert(records.take(n).drop_last() =~= records.take(n - 1));
        let last = records[n - 1];
        assert(records.take(n).last() == last);
        if is_child(last.path, parent) {
            assert(last.path.len() > 1);
            let i = choose|i: int|
                0 <= i < n - 1 && (#[trigger] records[i]).path == records[n - 1].path.drop_last();
            assert(records[i].path == parent);
        }
    }
}

/// The time of a scope is the sum of its durations.
pub proof fn lemma_own_is(records: Seq<ScopeRecord>, i: int)
    requires
        0 <= i < records.len(),
        forall|a: int, b: int|
            0 <= a < b < records.len() ==> (#[trigger] records[a]).path != (
            #[trigger] records[b]).path,
    ensures
        own_total(records, records[i].path) == sum(records[i].durations),
    decreases records.len(),
{
    let rest = records.drop_last();
    if i == records.len() - 1 {
        assert forall|a: int| 0 <= a < rest.len() implies (#[trigger] rest[a]).path
            != records[i].path by {
            assert(records[a].path != records[records.len() - 1].path);
        }
        lemma_own_absent(rest, records[i].path);
    } else {
        assert(records[i].path != records[records.len() - 1].path);
        assert(rest[i] == records[i]);
        lemma_own_is(rest, i);
    }
}

/// A path that no scope has took no time.
proof fn lemma_own_absent(records: Seq<ScopeRecord>, path: Seq<Seq<char>>)
    requires
        forall|a: int| 0 <= a < records.len() ==> (#[trigger] records[a]).path != path,
    ensures
        own_total(records, path) == 0,
    decreases records.len(),
{
    if records.len() > 0 {
        assert(records[records.len() - 1].path != path);
        assert forall|a: int| 0 <= a < records.drop_last().len() implies (
        #[trigger] records.drop_last()[a]).path != path by {
            assert(records[a].path != path);
        }
        lemma_own_absent(records.drop_last(), path);
    }
}

/// Entering a scope keeps a walk timely.
proof fn lemma_timely_enter(
    w: Walk,
    name: Seq<char>,
    t: u64,
    first: u64,
    now: u64,
    mode: Hierarchy,
)
    requires
        walk_wf(w),
        chained(w),
        !stays(w.open, name, mode),
        timely(w, first, now),
        now <= t,
    ensures
        timely(enter(w, name, t, mode), first, t),
{
    let next = enter(w, name, t, mode);
    lemma_enter_chained(w, name, t, mode);
    let path = w.open.push(name);
    let n = w.open.len() as int;
    assert forall|p: Seq<Seq<char>>|
        own_total(next.records, p) == own_total(w.records, p) && kids_total(next.records, p)
            == kids_total(w.records, p) by {
        lemma_totals_push(w.records, path, p);
    }
    assert forall|i: int|
        0 <= i < next.records.len() && !encloses(
            (#[trigger] next.records[i]).path,
            next.open,
        ) implies kids_total(next.records, next.records[i].path) <= own_total(
        next.records,
        next.records[i].path,
    ) by {
        lemma_encloses_push(next.records[i].path, w.open, name);
        assert(w.records[i].path == next.records[i].path);
    }
    assert forall|l: int| -1 <= l < next.open.len() implies kids_total(
        next.records,
        #[trigger] level_path(next.open, l),
    ) + level_start(next, first, l) <= own_total(next.records, level_path(next.open, l))
        + level_bound(next, t, l) by {
        if l < n {
            assert(level_path(next.open, l) =~= level_path(w.open, l));
            assert(kids_total(w.records, level_path(w.open, l)) + level_start(w, first, l)
                <= own_total(w.records, level_path(w.open, l)) + level_bound(w, now, l));
        } else {
            assert(level_path(next.open, l) =~= path);
            lemma_encloses_push(path, w.open, name);
            if has_path(w.records, path) {
                let i = choose|i: int|
                    0 <= i < w.records.len() && (#[trigger] w.records[i]).path == path;
                assert(kids_total(w.records, w.records[i].path) <= own_total(
                    w.records,
                    w.records[i].path,
                ));
            } else {
                lemma_no_kids(w.records, path, w.records.len() as int);
                assert(w.records.take(w.records.len() as int) =~= w.records);
            }
        }
    }
}

/// Leaving the open scope keeps a walk timely.
proof fn lemma_timely_exit(w: Walk, t: u64, first: u64, now: u64)
    requires
        walk_wf(w),
        chained(w),
        w.open.len() > 0,
        timely(w, first, now),
        now <= t,
    ensures
        timely(exit(w, t), first, t),
{
    let next = exit(w, t);
    lemma_exit_chained(w, t);
    assert(has_path(w.records, w.nodes[w.nodes.len() - 1]));
    let path = w.open;
    let top = w.open.len() - 1;
    let d = span(w.starts.last(), t);
    assert(w.starts[top] <= now);
    assert(d == t - w.starts[top]);
    assert(level_path(w.open, top) =~= path);
    assert(kids_total(w.records, level_path(w.open, top)) + level_start(w, first, top)
        <= own_total(w.records, level_path(w.open, top)) + level_bound(w, now, top));
    assert forall|p: Seq<Seq<char>>|
        own_total(next.records, p) == own_total(w.records, p) + if p == path {
            d as nat
        } else {
            0
        } && kids_total(next.records, p) == kids_total(w.records, p) + if is_child(path, p) {
            d as nat
        } else {
            0
        } by {
        lemma_credit_totals(w.records, path, d, p);
    }
    assert forall|i: int|
        0 <= i < next.records.len() && !encloses(
            (#[trigger] next.records[i]).path,
            next.open,
        ) implies kids_total(next.records, next.records[i].path) <= own_total(
        next.records,
        next.records[i].path,
    ) by {
        let p = next.records[i].path;
        assert(w.records[i].path == p);
        lemma_encloses_pop(p, path);
        if p != path {
            if is_child(path, p) {
                assert(next.open.take(p.len() as int) =~= next.open);
            }
        }
    }
    assert forall|l: int| -1 <= l < next.open.len() implies kids_total(
        next.records,
        #[trigger] level_path(next.open, l),
    ) + level_start(next, first, l) <= own_total(next.records, level_path(next.open, l))
        + level_bound(next, t, l) by {
        let p = level_path(w.open, l);
        assert(level_path(next.open, l) =~= p);
        assert(kids_total(w.records, level_path(w.open, l)) + level_start(w, first, l)
            <= own_total(w.records, level_path(w.open, l)) + level_bound(w, now, l));
        if l + 1 == top {
            assert(path.drop_last() =~= p);
        } else {
            if is_child(path, p) {
                assert(path.drop_last().len() == p.len());
            }
        }
    }
}

/// A walk through a log whose clock does not run backwards, and in which no
/// call stays in its scope, is timely.
pub proof fn lemma_timely(measures: Seq<Measure>, first: u64, mode: Hierarchy)
    requires
        unfolded(measures, mode),
        exits_matched(measures),
        ordered(measures),
        forall|i: int| 0 <= i < measures.len() ==> first <= (#[trigger] measures[i]).time,
    ensures
        timely(walk(measures, mode), first, now_of(measures, first)),
    decreases measures.len(),
{
    if measures.len() == 0 {
        let w = walk(measures, mode);
        assert forall|l: int| -1 <= l < w.open.len() implies kids_total(
            w.records,
            #[trigger] level_path(w.open, l),
        ) + level_start(w, first, l) <= own_total(w.records, level_path(w.open, l)) + level_bound(
            w,
            first,
            l,
        ) by {}
    } else {
        let prev = measures.drop_last();
        let last = measures.last();
        lemma_matched_prefix(measures);
        lemma_unfolded_prefix(measures, mode);
        lemma_walk_chained(prev, mode);
        lemma_walk_depth(prev, mode);
        assert forall|i: int, j: int| 0 <= i <= j < prev.len() implies (#[trigger] prev[i]).time <= (
        #[trigger] prev[j]).time by {
            assert(measures[i].time <= measures[j].time);
        }
        assert forall|i: int| 0 <= i < prev.len() implies first <= (#[trigger] prev[i]).time by {
            assert(first <= measures[i].time);
        }
        lemma_timely(prev, first, mode);
        lemma_walk_wf(prev, mode);
        let now = now_of(prev, first);
        assert(first <= measures[measures.len() - 1].time);
        if prev.len() > 0 {
            assert(measures[prev.len() - 1].time <= measures[measures.len() - 1].time);
        }
        match last.ty {
            crate::measure::MeasureType::Start { name } => {
                lemma_timely_enter(walk(prev, mode), name@, last.time, first, now, mode);
            },
            crate::measure::MeasureType::End => {
                lemma_timely_exit(walk(prev, mode), last.time, first, now);
            },
        }
    }
}

/// A growing part is a growing share.
pub proof fn lemma_percent_grows(a: nat, b: nat, whole: nat)
    requires
        a <= b,
    ensures
        percent_of(a, whole) <= percent_of(b, whole),
{
    if whole > 0 {
        assert(a * 10_000 <= b * 10_000) by (nonlinear_arith)
            requires
                a <= b,
        ;
        vstd::arithmetic::div_mod::lemma_div_is_ordered(
            (a * 10_000) as int,
            (b * 10_000) as int,
            whole as int,
        );
    }
}

/// The shares of the outermost scopes add up to no more than the share of
/// the time that they took together.
proof fn lemma_roots_share(records: Seq<ScopeRecord>, whole: nat)
    requires
        whole > 0,
    ensures
        roots_percent(records, whole) * whole <= kids_total(records, Seq::empty()) * 10_000,
    decreases records.len(),
{
    if records.len() > 0 {
        lemma_roots_share(records.drop_last(), whole);
        let last = records.last();
        let before = roots_percent(records.drop_last(), whole);
        let kids = kids_total(records.drop_last(), Seq::empty());
        if last.path.len() == 1 {
            assert(last.path.drop_last() =~= Seq::<Seq<char>>::empty());
            let x = sum(last.durations);
            let share = percent_of(x, whole);
            vstd::arithmetic::div_mod::lemma_fundamental_div_mod(
                (x * 10_000) as int,
                whole as int,
            );
            vstd::arithmetic::div_mod::lemma_mod_bound((x * 10_000) as int, whole as int);
            let rest = ((x * 10_000) as int) % (whole as int);
            assert(share * whole <= x * 10_000) by (nonlinear_arith)
                requires
                    x * 10_000 == whole * share + rest,
                    0 <= rest,
            ;
            assert((before + share) * whole <= (kids + x) * 10_000) by (nonlinear_arith)
                requires
                    before * whole <= kids * 10_000,
                    share * whole <= x * 10_000,
            ;
        } else {
            assert(!is_child(last.path, Seq::<Seq<char>>::empty())) by {
                if is_child(last.path, Seq::<Seq<char>>::empty()) {
                    assert(last.path.len() == 1);
                }
            }
        }
    } else {
        let shares = roots_percent(records, whole);
        let total = kids_total(records, Seq::empty());
        assert(shares * whole <= total * 10_000) by (nonlinear_arith)
            requires
                shares == 0,
                total == 0,
        ;
    }
}

/// In the forest of a log whose clock does not run backwards, in which
/// every scope that is entered is left and no call stays in its scope, a
/// scope took at least as long as the scopes directly under it took
/// together, and so at least as long as any one of them; and the outermost
/// scopes took together no longer than the log spans. (A scope that calls
/// itself and is held as one scope counts the time of the inner call twice.)
pub proof fn lemma_nested_times(measures: Seq<Measure>, mode: Hierarchy)
    requires
        unfolded(measures, mode),
        balanced(measures),
        ordered(measures),
        measures.len() > 0,
    ensures
        forall|p: int|
            0 <= p < forest_of(measures, mode).len() ==> kids_total(
                forest_of(measures, mode),
                (#[trigger] forest_of(measures, mode)[p]).path,
            ) <= sum(forest_of(measures, mode)[p].durations),
        forall|p: int, c: int|
            0 <= p < forest_of(measures, mode).len() && 0 <= c < forest_of(measures, mode).len() && is_child(
                (#[trigger] forest_of(measures, mode)[c]).path,
                (#[trigger] forest_of(measures, mode)[p]).path,
            ) ==> sum(forest_of(measures, mode)[c].durations) <= sum(forest_of(measures, mode)[p].durations),
        kids_total(forest_of(measures, mode), Seq::empty()) + measures[0].time <= measures.last().time,
{
    let first = measures[0].time;
    let w = walk(measures, mode);
    let records = w.records;
    assert forall|i: int| 0 <= i < measures.len() implies first <= (#[trigger] measures[i]).time by {
        assert(measures[0].time <= measures[i].time);
    }
    lemma_timely(measures, first, mode);
    lemma_walk_depth(measures, mode);
    lemma_walk_wf(measures, mode);
    assert(w.open =~= Seq::<Seq<char>>::empty());
    assert forall|p: int| 0 <= p < records.len() implies kids_total(
        records,
        (#[trigger] records[p]).path,
    ) <= sum(records[p].durations) by {
        assert(records[p].path.len() >= 1);
        assert(!encloses(records[p].path, w.open));
        lemma_own_is(records, p);
    }
    assert forall|p: int, c: int|
        0 <= p < records.len() && 0 <= c < records.len() && is_child(
            (#[trigger] records[c]).path,
            (#[trigger] records[p]).path,
        ) implies sum(records[c].durations) <= sum(records[p].durations) by {
        lemma_kid_within(records, records[p].path, c);
    }
    assert(level_path(w.open, -1) =~= Seq::<Seq<char>>::empty());
    assert(kids_total(records, level_path(w.open, -1)) + level_start(w, first, -1) <= own_total(
        records,
        level_path(w.open, -1),
    ) + level_bound(w, now_of(measures, first), -1));
    assert forall|a: int| 0 <= a < records.len() implies (#[trigger] records[a]).path
        != Seq::<Seq<char>>::empty() by {
        assert(records[a].path.len() >= 1);
    }
    lemma_own_absent(records, Seq::empty());
}

/// The shares of one thread's time add up as its scopes are nested: in the
/// forest of a log whose clock does not run backwards, in which every scope
/// that is entered is left and no call stays in its scope, held against a
/// time `whole` that is not zero and covers the log, the outermost scopes
/// have together no more than 100%, and no scope has less than a scope
/// directly under it.
pub proof fn lemma_nested_shares(measures: Seq<Measure>, mode: Hierarchy, whole: nat)
    requires
        unfolded(measures, mode),
        balanced(measures),
        ordered(measures),
        measures.len() > 0,
        whole > 0,
        whole >= measures.last().time - measures[0].time,
    ensures
        roots_percent(forest_of(measures, mode), whole) <= 10_000,
        forall|p: int, c: int|
            0 <= p < forest_of(measures, mode).len() && 0 <= c < forest_of(measures, mode).len() && is_child(
                (#[trigger] forest_of(measures, mode)[c]).path,
                (#[trigger] forest_of(measures, mode)[p]).path,
            ) ==> percent_of(sum(forest_of(measures, mode)[c].durations), whole) <= percent_of(
                sum(forest_of(measures, mode)[p].durations),
                whole,
            ),
{
    let records = forest_of(measures, mode);
    lemma_nested_times(measures, mode);
    lemma_roots_share(records, whole);
    let total = kids_total(records, Seq::empty());
    let shares = roots_percent(records, whole);
    assert(shares <= 10_000) by (nonlinear_arith)
        requires
            shares * whole <= total * 10_000,
            total <= whole,
            whole > 0,
    ;
    assert forall|p: int, c: int|
        0 <= p < records.len() && 0 <= c < records.len() && is_child(
            (#[trigger] records[c]).path,
            (#[trigger] records[p]).path,
        ) implies percent_of(sum(records[c].durations), whole) <= percent_of(
        sum(records[p].durations),
        whole,
    ) by {
        lemma_percent_grows(sum(records[c].durations), sum(records[p].durations), whole);
    }
}

/// The scopes under a scope take together at least as long as one of them.
pub proof fn lemma_kid_within(records: Seq<ScopeRecord>, parent: Seq<Seq<char>>, c: int)
    requires
        0 <= c < records.len(),
        is_child(records[c].path, parent),
    ensures
        sum(records[c].durations) <= kids_total(records, parent),
    decreases records.len(),
{
    if c < records.len() - 1 {
        assert(records.drop_last()[c] == records[c]);
        lemma_kid_within(records.drop_last(), parent, c);
    }
}

} // verus!
