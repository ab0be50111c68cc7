//! Flattens a forest into one row of figures per scope, in pre-order.

use crate::forest::Forest;
use crate::text::{format_name, formatted};
use crate::timing::{sum, Timing};
use crate::tree::{children_under, level_of, path_of, preorder, traversal, ScopeRecord};
use vstd::prelude::*;

verus! {

/// `timing` holds the figures of the scope `record` of thread `thread`, which
/// ran for `total`.
pub open spec fn row_of(timing: Timing, record: ScopeRecord, total: u64, thread: usize) -> bool {
    timing.is_from(
        record.path.last(),
        formatted((record.path.len() - 1) as nat, record.path.last()),
        record.durations,
        total,
        thread,
    )
}

/// `rows` holds, in this order, the figures of the scopes at the positions
/// `order`.
pub open spec fn rows_match(
    rows: Seq<Timing>,
    records: Seq<ScopeRecord>,
    order: Seq<int>,
    total: u64,
    thread: usize,
) -> bool {
    &&& rows.len() == order.len()
    &&& forall|j: int|
        0 <= j < order.len() ==> 0 <= (#[trigger] order[j]) < records.len() && row_of(
            rows[j],
            records[order[j]],
            total,
            thread,
        )
}

/// The calls of some scope among those at the positions `order` took longer
/// together than a time can hold.
pub open spec fn overflows(records: Seq<ScopeRecord>, order: Seq<int>) -> bool {
    exists|j: int|
        0 <= j < order.len() && 0 <= (#[trigger] order[j]) < records.len() && sum(
            records[order[j]].durations,
        ) > u64::MAX
}

/// The figures of the scopes below the scope at `parent` (of all scopes where
/// `parent` is `None`), in pre-order; `None` where a sum of durations does
/// not fit.
pub fn timings_under(forest: &Forest, parent: Option<usize>, total: u64, thread: usize) -> (rows:
    Option<Vec<Timing>>)
    requires
        forest.wf(),
        parent matches Some(p) ==> p < forest@.len(),
    ensures
        rows.is_none() <==> overflows(forest@, preorder(forest@, parent, 0)),
        rows matches Some(r) ==> rows_match(r@, forest@, preorder(forest@, parent, 0), total, thread),
    decreases forest@.len() - level_of(parent),
{
    let ghost records = forest@;
    let ghost whole = preorder(records, parent, 0);
    let mut rows: Vec<Timing> = Vec::new();
    let count = forest.child_count(parent);
    let mut c: usize = 0;
    let ghost mut done: Seq<int> = Seq::empty();
    while c < count
        invariant
            forest.wf(),
            records == forest@,
            parent matches Some(p) ==> p < forest@.len(),
            count == children_under(records, path_of(records, parent)).len(),
            c <= count,
            whole == preorder(records, parent, 0),
            done + preorder(records, parent, c as int) == whole,
            rows_match(rows@, records, done, total, thread),
            !overflows(records, done),
        decreases count - c,
    {
        let child = forest.child(parent, c);
        let ghost below = preorder(records, Some(child), 0);
        let ghost rest = preorder(records, parent, c as int + 1);
        proof {
            assert(preorder(records, parent, c as int) == seq![child as int] + below + rest);
            assert(whole =~= (done.push(child as int) + below) + rest);
            assert(whole[done.len() as int] == child);
        }
        let name = forest.name(child).clone();
        let label = format_name(forest.depth(child), forest.name(child));
        let timing = match Timing::from_durations(name, label, forest.measures(child), total, thread) {
            Some(timing) => timing,
            None => {
                return None;
            },
        };
        let mut inner = match timings_under(forest, Some(child), total, thread) {
            Some(inner) => inner,
            None => {
                proof {
                    let j = choose|j: int|
                        0 <= j < below.len() && 0 <= (#[trigger] below[j]) < records.len() && sum(
                            records[below[j]].durations,
                        ) > u64::MAX;
                    assert(whole[done.len() + 1 + j] == below[j]);
                }
                return None;
            },
        };
        let ghost before = rows@;
        let ghost inner_rows = inner@;
        rows.push(timing);
        rows.append(&mut inner);
        proof {
            let next = done.push(child as int) + below;
            assert(rows@ =~= before.push(timing) + inner_rows);
            assert forall|j: int| 0 <= j < next.len() implies 0 <= (#[trigger] next[j])
                < records.len() && row_of(rows@[j], records[next[j]], total, thread) && sum(
                records[next[j]].durations,
            ) <= u64::MAX by {
                if j < done.len() {
                    assert(next[j] == done[j]);
                    assert(rows@[j] == before[j]);
                } else if j == done.len() {
                    assert(rows@[j] == timing);
                } else {
                    let i = j - done.len() - 1;
                    assert(next[j] == below[i]);
                    assert(rows@[j] == inner_rows[i]);
                }
            }
            done = next;
        }
        c = c + 1;
    }
    proof {
        assert(preorder(records, parent, c as int) =~= Seq::<int>::empty());
        assert(done =~= whole);
    }
    Some(rows)
}

/// The figures of all scopes of the forest of thread `thread`, which ran for
/// `total`: one row for each scope, in pre-order, with the name indented by
/// the depth. `None` where the durations of a scope add up to more than a
/// time can hold.
pub fn to_timings(forest: &Forest, total: u64, thread: usize) -> (rows: Option<Vec<Timing>>)
    requires
        forest.wf(),
    ensures
        rows.is_none() <==> overflows(forest@, traversal(forest@)),
        rows matches Some(r) ==> rows_match(r@, forest@, traversal(forest@), total, thread),
{
    timings_under(forest, None, total, thread)
}

} // verus!
