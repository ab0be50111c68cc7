//! The pre-order of a forest leaves no scope out and takes none twice, so
//! what is added up over the rows of a thread is added up over its scopes.

use crate::counting::encloses;
use crate::forest::{lemma_children_complete, lemma_children_sound};
use crate::tree::{
    children_under, lemma_parent_before, level_of, path_of, preorder, records_wf, traversal,
    ScopeRecord,
};
use vstd::prelude::*;

verus! {

/// How often `j` occurs in `order`.
pub open spec fn occurrences(order: Seq<int>, j: int) -> nat
    decreases order.len(),
{
    if order.len() == 0 {
        0
    } else {
        occurrences(order.drop_last(), j) + if order.last() == j {
            1nat
        } else {
            0nat
        }
    }
}

/// The values of `g` at the positions `order`, added up.
pub open spec fn sum_at(order: Seq<int>, g: spec_fn(int) -> nat) -> nat
    decreases order.len(),
{
    if order.len() == 0 {
        0
    } else {
        sum_at(order.drop_last(), g) + g(order.last())
    }
}

/// The values of `g` at the positions below `n`, added up.
pub open spec fn sum_below(n: nat, g: spec_fn(int) -> nat) -> nat
    decreases n,
{
    if n == 0 {
        0
    } else {
        sum_below((n - 1) as nat, g) + g(n - 1)
    }
}

/// The scope at `j` is, or lies below, one of the scopes directly under
/// `parent` from the `c`-th on.
pub open spec fn under(records: Seq<ScopeRecord>, parent: Option<usize>, c: int, j: int) -> bool {
    let kids = children_under(records, path_of(records, parent));
    exists|k: int|
        c <= k < kids.len() && encloses(records[(#[trigger] kids[k]).1 as int].path, records[j].path)
}

/// In two lists, one behind the other, a position occurs as often as in
/// both together.
proof fn lemma_occurrences_concat(a: Seq<int>, b: Seq<int>, j: int)
    ensures
        occurrences(a + b, j) == occurrences(a, j) + occurrences(b, j),
    decreases b.len(),
{
    if b.len() == 0 {
        assert(a + b =~= a);
    } else {
        assert((a + b).drop_last() =~= a + b.drop_last());
        lemma_occurrences_concat(a, b.drop_last(), j);
    }
}

/// In a list of one position, that position occurs once and no other.
proof fn lemma_occurrences_one(x: int, j: int)
    ensures
        occurrences(seq![x], j) == if x == j {
            1nat
        } else {
            0nat
        },
{
    assert(seq![x].drop_last() =~= Seq::<int>::empty());
    assert(seq![x].last() == x);
    assert(occurrences(Seq::<int>::empty(), j) == 0);
}

/// The scopes directly under a scope are listed in the order of their
/// positions.
proof fn lemma_children_increasing(
    records: Seq<ScopeRecord>,
    parent: Seq<Seq<char>>,
    a: int,
    b: int,
)
    requires
        records.len() <= usize::MAX,
        0 <= a < b < children_under(records, parent).len(),
    ensures
        children_under(records, parent)[a].1 < children_under(records, parent)[b].1,
    decreases records.len(),
{
    let rest = children_under(records.drop_last(), parent);
    if b < rest.len() {
        lemma_children_increasing(records.drop_last(), parent, a, b);
    } else {
        lemma_children_sound(records.drop_last(), parent, a);
    }
}

/// Every scope around a scope of the forest is in the forest, before it.
proof fn lemma_prefix_present(records: Seq<ScopeRecord>, j: int, m: int)
    requires
        records_wf(records),
        0 <= j < records.len(),
        1 <= m <= records[j].path.len(),
    ensures
        exists|i: int| 0 <= i <= j && (#[trigger] records[i]).path == records[j].path.take(m),
    decreases records[j].path.len() - m,
{
    let path = records[j].path;
    if m == path.len() {
        assert(path.take(m) =~= path);
        assert(records[j].path == path.take(m));
    } else {
        lemma_prefix_present(records, j, m + 1);
        let above = choose|i: int|
            0 <= i <= j && (#[trigger] records[i]).path == records[j].path.take(m + 1);
        assert(records[above].path.len() > 1);
        let i = choose|i: int|
            0 <= i < above && (#[trigger] records[i]).path == records[above].path.drop_last();
        assert(path.take(m + 1).drop_last() =~= path.take(m));
        assert(records[i].path == path.take(m));
    }
}

/// Every scope is, or lies below, an outermost scope.
proof fn lemma_under_root(records: Seq<ScopeRecord>, j: int)
    requires
        records_wf(records),
        records.len() <= usize::MAX,
        0 <= j < records.len(),
    ensures
        under(records, None, 0, j),
{
    let empty = Seq::<Seq<char>>::empty();
    lemma_prefix_present(records, j, 1);
    let i = choose|i: int| 0 <= i <= j && (#[trigger] records[i]).path == records[j].path.take(1);
    assert(records[i].path.drop_last() =~= empty);
    lemma_children_complete(records, empty, i);
    let kids = children_under(records, empty);
    let k = choose|k: int|
        0 <= k < kids.len() && #[trigger] kids[k] == (records[i].path.last(), i as usize);
    assert(kids[k].1 as int == i);
    assert(records[j].path.take(records[i].path.len() as int) == records[i].path);
    assert(path_of(records, None) == empty);
    let listed = children_under(records, path_of(records, None));
    assert(0 <= k < listed.len() && encloses(records[listed[k].1 as int].path, records[j].path));
}

/// A scope encloses just itself and what lies below the scopes directly
/// under it.
proof fn lemma_under_child(records: Seq<ScopeRecord>, x: usize, j: int)
    requires
        records_wf(records),
        records.len() <= usize::MAX,
        0 <= x < records.len(),
        0 <= j < records.len(),
    ensures
        encloses(records[x as int].path, records[j].path) <==> (j == x || under(
            records,
            Some(x),
            0,
            j,
        )),
        !(j == x && under(records, Some(x), 0, j)),
{
    let px = records[x as int].path;
    let pj = records[j].path;
    let kids = children_under(records, px);
    assert(px.take(px.len() as int) =~= px);
    if under(records, Some(x), 0, j) {
        let k = choose|k: int|
            0 <= k < kids.len() && encloses(records[(#[trigger] kids[k]).1 as int].path, pj);
        lemma_children_sound(records, px, k);
        let pk = records[kids[k].1 as int].path;
        assert(pk == px.push(kids[k].0));
        assert(pk.len() == px.len() + 1);
        assert(pj.take(pk.len() as int) == pk);
        assert(pk.drop_last() =~= px);
        assert(pj.take(px.len() as int) =~= pj.take(pk.len() as int).drop_last());
        assert(encloses(px, pj));
        assert(j != x);
    }
    if encloses(px, pj) && j != x {
        if x < j {
            assert(records[x as int].path != records[j].path);
        } else {
            assert(records[j].path != records[x as int].path);
        }
        assert(pj.take(pj.len() as int) =~= pj);
        let m = px.len() + 1;
        lemma_prefix_present(records, j, m as int);
        let i = choose|i: int| 0 <= i <= j && (#[trigger] records[i]).path == pj.take(m as int);
        assert(pj.take(m as int).drop_last() =~= pj.take(px.len() as int));
        lemma_children_complete(records, px, i);
        let k = choose|k: int|
            0 <= k < kids.len() && #[trigger] kids[k] == (records[i].path.last(), i as usize);
        assert(kids[k].1 as int == i);
        assert(pj.take(records[i].path.len() as int) == records[i].path);
        assert(path_of(records, Some(x)) == px);
        let listed = children_under(records, path_of(records, Some(x)));
        assert(0 <= k < listed.len() && encloses(records[listed[k].1 as int].path, pj));
        assert(under(records, Some(x), 0, j));
    }
}

/// What lies below the scopes under `parent` from the `c`-th on lies below
/// the `c`-th or below those from the next on, and not below both.
proof fn lemma_under_split(records: Seq<ScopeRecord>, parent: Option<usize>, c: int, j: int)
    requires
        records_wf(records),
        records.len() <= usize::MAX,
        parent matches Some(p) ==> p < records.len(),
        0 <= c < children_under(records, path_of(records, parent)).len(),
        0 <= j < records.len(),
    ensures
        under(records, parent, c, j) <==> (encloses(
            records[children_under(records, path_of(records, parent))[c].1 as int].path,
            records[j].path,
        ) || under(records, parent, c + 1, j)),
        !(encloses(
            records[children_under(records, path_of(records, parent))[c].1 as int].path,
            records[j].path,
        ) && under(records, parent, c + 1, j)),
{
    let above = path_of(records, parent);
    let kids = children_under(records, above);
    let pj = records[j].path;
    let first = records[kids[c].1 as int].path;
    if under(records, parent, c, j) {
        let k = choose|k: int|
            c <= k < kids.len() && encloses(records[(#[trigger] kids[k]).1 as int].path, pj);
        if k != c {
            assert(c + 1 <= k < kids.len() && encloses(records[kids[k].1 as int].path, pj));
        }
    }
    if under(records, parent, c + 1, j) {
        let k = choose|k: int|
            c + 1 <= k < kids.len() && encloses(records[(#[trigger] kids[k]).1 as int].path, pj);
        assert(c <= k < kids.len() && encloses(records[kids[k].1 as int].path, pj));
        if encloses(first, pj) {
            lemma_children_sound(records, above, c);
            lemma_children_sound(records, above, k);
            lemma_children_increasing(records, above, c, k);
            let other = records[kids[k].1 as int].path;
            assert(first.len() == other.len());
            assert(records[kids[c].1 as int].path != records[kids[k].1 as int].path);
        }
    }
    if encloses(first, pj) {
        assert(c <= c < kids.len() && encloses(records[kids[c].1 as int].path, pj));
    }
}

/// The positions of a pre-order are positions of scopes.
pub proof fn lemma_preorder_in_range(records: Seq<ScopeRecord>, parent: Option<usize>, c: int)
    requires
        records.len() <= usize::MAX,
        0 <= c,
    ensures
        forall|k: int|
            0 <= k < preorder(records, parent, c).len() ==> 0 <= (#[trigger] preorder(
                records,
                parent,
                c,
            )[k]) < records.len(),
    decreases records.len() - level_of(parent), children_under(
        records,
        path_of(records, parent),
    ).len() - c,
{
    let kids = children_under(records, path_of(records, parent));
    if level_of(parent) >= records.len() || c >= kids.len() {
    } else {
        let child = kids[c].1;
        lemma_children_sound(records, path_of(records, parent), c);
        let below = if level_of(parent) < child < records.len() {
            preorder(records, Some(child), 0)
        } else {
            Seq::empty()
        };
        if level_of(parent) < child < records.len() {
            lemma_preorder_in_range(records, Some(child), 0);
        }
        lemma_preorder_in_range(records, parent, c + 1);
        let rest = preorder(records, parent, c + 1);
        let whole = preorder(records, parent, c);
        assert(whole == seq![child as int] + below + rest);
        assert forall|k: int| 0 <= k < whole.len() implies 0 <= (#[trigger] whole[k])
            < records.len() by {
            if k == 0 {
            } else if k < 1 + below.len() {
                assert(whole[k] == below[k - 1]);
            } else {
                assert(whole[k] == rest[k - 1 - below.len()]);
            }
        }
    }
}

/// The pre-order of the scopes under `parent` from the `c`-th on takes each
/// scope that is one of them or lies below one of them once, and no other.
pub proof fn lemma_preorder_occurrences(
    records: Seq<ScopeRecord>,
    parent: Option<usize>,
    c: int,
    j: int,
)
    requires
        records_wf(records),
        records.len() <= usize::MAX,
        parent matches Some(p) ==> p < records.len(),
        0 <= c,
        0 <= j < records.len(),
    ensures
        occurrences(preorder(records, parent, c), j) == if under(records, parent, c, j) {
            1nat
        } else {
            0nat
        },
    decreases records.len() - level_of(parent), children_under(
        records,
        path_of(records, parent),
    ).len() - c,
{
    let above = path_of(records, parent);
    let kids = children_under(records, above);
    if c >= kids.len() {
    } else {
        let child = kids[c].1;
        lemma_children_sound(records, above, c);
        assert(records[child as int].path.drop_last() =~= above);
        lemma_parent_before(records, child as int);
        let below = preorder(records, Some(child), 0);
        let rest = preorder(records, parent, c + 1);
        assert(preorder(records, parent, c) == seq![child as int] + below + rest);
        lemma_preorder_occurrences(records, Some(child), 0, j);
        lemma_preorder_occurrences(records, parent, c + 1, j);
        lemma_occurrences_concat(seq![child as int] + below, rest, j);
        lemma_occurrences_concat(seq![child as int], below, j);
        lemma_occurrences_one(child as int, j);
        lemma_under_split(records, parent, c, j);
        lemma_under_child(records, child, j);
    }
}

/// Without one of its positions a list adds up to what it added up to, less
/// the value at that position.
proof fn lemma_sum_at_remove(order: Seq<int>, i: int, g: spec_fn(int) -> nat)
    requires
        0 <= i < order.len(),
    ensures
        sum_at(order, g) == sum_at(order.remove(i), g) + g(order[i]),
    decreases order.len(),
{
    if i == order.len() - 1 {
        assert(order.remove(i) =~= order.drop_last());
    } else {
        assert(order.remove(i).drop_last() =~= order.drop_last().remove(i));
        assert(order.remove(i).last() == order.last());
        lemma_sum_at_remove(order.drop_last(), i, g);
    }
}

/// Without one of its positions a list holds that position once less, and
/// every other as often as before.
proof fn lemma_occurrences_remove(order: Seq<int>, i: int, j: int)
    requires
        0 <= i < order.len(),
    ensures
        occurrences(order, j) == occurrences(order.remove(i), j) + if order[i] == j {
            1nat
        } else {
            0nat
        },
    decreases order.len(),
{
    if i == order.len() - 1 {
        assert(order.remove(i) =~= order.drop_last());
    } else {
        assert(order.remove(i).drop_last() =~= order.drop_last().remove(i));
        assert(order.remove(i).last() == order.last());
        lemma_occurrences_remove(order.drop_last(), i, j);
    }
}

/// A position that occurs in a list stands somewhere in it.
proof fn lemma_occurrences_found(order: Seq<int>, j: int)
    requires
        occurrences(order, j) > 0,
    ensures
        exists|i: int| 0 <= i < order.len() && order[i] == j,
    decreases order.len(),
{
    if order.len() > 0 {
        if order.last() == j {
            assert(order[order.len() - 1] == j);
        } else {
            lemma_occurrences_found(order.drop_last(), j);
            let i = choose|i: int| 0 <= i < order.drop_last().len() && order.drop_last()[i] == j;
            assert(order[i] == j);
        }
    }
}

/// Added up over positions that take each position below `n` once and no
/// other, `g` is added up over the positions below `n`.
pub proof fn lemma_sum_rearranged(order: Seq<int>, n: nat, g: spec_fn(int) -> nat)
    requires
        forall|k: int| 0 <= k < order.len() ==> 0 <= #[trigger] order[k] < n,
        forall|j: int| 0 <= j < n ==> occurrences(order, j) == 1,
    ensures
        sum_at(order, g) == sum_below(n, g),
    decreases n,
{
    if n == 0 {
        if order.len() > 0 {
            assert(0 <= order[0] < n);
        }
    } else {
        let top = n - 1;
        assert(occurrences(order, top) == 1);
        lemma_occurrences_found(order, top);
        let i = choose|i: int| 0 <= i < order.len() && order[i] == top;
        let rest = order.remove(i);
        lemma_sum_at_remove(order, i, g);
        assert forall|j: int| 0 <= j < n - 1 implies occurrences(rest, j) == 1 by {
            assert(occurrences(order, j) == 1);
            lemma_occurrences_remove(order, i, j);
        }
        assert forall|k: int| 0 <= k < rest.len() implies 0 <= #[trigger] rest[k] < n - 1 by {
            let at = if k < i {
                k
            } else {
                k + 1
            };
            assert(rest[k] == order[at]);
            assert(0 <= order[at] < n);
            if rest[k] == top {
                lemma_occurrences_remove(order, i, top);
                assert(occurrences(rest, top) == 0);
                lemma_occurrences_remove(rest, k, top);
            }
        }
        lemma_sum_rearranged(rest, (n - 1) as nat, g);
    }
}

/// The pre-order of a forest takes every scope once.
pub proof fn lemma_every_scope_once(records: Seq<ScopeRecord>, j: int)
    requires
        records_wf(records),
        records.len() <= usize::MAX,
        0 <= j < records.len(),
    ensures
        occurrences(traversal(records), j) == 1,
{
    lemma_preorder_occurrences(records, None, 0, j);
    lemma_under_root(records, j);
}

} // verus!
