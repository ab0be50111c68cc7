//! The forest of scopes as it is held in memory: the scopes in a flat list,
//! each with an insertion-ordered map from the names of the scopes directly
//! under it to their positions in the list.

use crate::measure::{duration_between, Measure, MeasureType};
use crate::ordered_map::{entries, map_find, map_insert, map_len, map_new, map_value_at};
use crate::rows::Hierarchy;
use crate::tree::{
    balanced, children_under, credit, enter, exit, forest_of, has_path, is_child, lemma_credit_wf,
    lemma_depth_take, lemma_grow_wf, lemma_parent_before, lemma_walk_depth, lemma_walk_take,
    lemma_walk_wf, path_of, records_wf, stays, walk, ScopeRecord,
};
use indexmap::IndexMap;
use vstd::prelude::*;

verus! {

/// An entry of `children_under` gives the position of a scope whose path is
/// the parent's path and then the entry's name.
pub proof fn lemma_children_sound(records: Seq<ScopeRecord>, parent: Seq<Seq<char>>, k: int)
    requires
        records.len() <= usize::MAX,
        0 <= k < children_under(records, parent).len(),
    ensures
        0 <= children_under(records, parent)[k].1 < records.len(),
        records[children_under(records, parent)[k].1 as int].path == parent.push(
            children_under(records, parent)[k].0,
        ),
    decreases records.len(),
{
    let rest = children_under(records.drop_last(), parent);
    let r = records.last();
    if is_child(r.path, parent) && k == rest.len() {
        assert(r.path =~= parent.push(r.path.last()));
    } else {
        lemma_children_sound(records.drop_last(), parent, k);
    }
}

/// Every scope directly under `parent` has its entry in `children_under`.
pub proof fn lemma_children_complete(records: Seq<ScopeRecord>, parent: Seq<Seq<char>>, j: int)
    requires
        records.len() <= usize::MAX,
        0 <= j < records.len(),
        is_child(records[j].path, parent),
    ensures
        exists|k: int|
            0 <= k < children_under(records, parent).len() && #[trigger] children_under(
                records,
                parent,
            )[k] == (records[j].path.last(), j as usize),
    decreases records.len(),
{
    let rest = children_under(records.drop_last(), parent);
    if j == records.len() - 1 {
        assert(children_under(records, parent)[rest.len() as int] == (
            records[j].path.last(),
            j as usize,
        ));
    } else {
        lemma_children_complete(records.drop_last(), parent, j);
        let k = choose|k: int|
            0 <= k < rest.len() && #[trigger] rest[k] == (
                records.drop_last()[j].path.last(),
                j as usize,
            );
        assert(children_under(records, parent)[k] == rest[k]);
    }
}

/// What a new last scope does to `children_under`.
pub proof fn lemma_children_push(records: Seq<ScopeRecord>, r: ScopeRecord, parent: Seq<Seq<char>>)
    ensures
        children_under(records.push(r), parent) == if is_child(r.path, parent) {
            children_under(records, parent).push((r.path.last(), records.len() as usize))
        } else {
            children_under(records, parent)
        },
{
    assert(records.push(r).drop_last() =~= records);
}

/// `children_under` looks at paths only.
pub proof fn lemma_children_same_paths(
    a: Seq<ScopeRecord>,
    b: Seq<ScopeRecord>,
    parent: Seq<Seq<char>>,
)
    requires
        a.len() == b.len(),
        forall|i: int| 0 <= i < a.len() ==> (#[trigger] a[i]).path == b[i].path,
    ensures
        children_under(a, parent) == children_under(b, parent),
    decreases a.len(),
{
    if a.len() > 0 {
        assert(a.last().path == a[a.len() - 1].path);
        assert forall|i: int| 0 <= i < a.drop_last().len() implies (#[trigger] a.drop_last()[i]).path
            == b.drop_last()[i].path by {
            assert(a[i].path == b[i].path);
        }
        lemma_children_same_paths(a.drop_last(), b.drop_last(), parent);
    }
}

/// One scope as it is held in memory.
pub struct Node {
    name: String,
    depth: usize,
    measures: Vec<u64>,
    children: IndexMap<String, usize>,
}

impl Node {
    /// A scope without calls and without scopes under it.
    fn new(name: String, depth: usize) -> (node: Node)
        ensures
            node.name == name,
            node.depth == depth,
            node.measures@ == Seq::<u64>::empty(),
            entries(&node.children) == Seq::<(Seq<char>, usize)>::empty(),
    {
        Node { name, depth, measures: Vec::new(), children: map_new() }
    }

    /// Whether the node holds what `records` says of the scope at `at`.
    pub closed spec fn matches(&self, records: Seq<ScopeRecord>, at: int) -> bool {
        &&& self.name@ == records[at].path.last()
        &&& self.depth + 1 == records[at].path.len()
        &&& self.measures@ == records[at].durations
        &&& entries(&self.children) == children_under(records, records[at].path)
    }
}

/// The forest of one thread.
pub struct Forest {
    nodes: Vec<Node>,
    roots: IndexMap<String, usize>,
    records: Ghost<Seq<ScopeRecord>>,
}

impl View for Forest {
    type V = Seq<ScopeRecord>;

    /// The scopes of the forest, in the order in which they were first
    /// entered.
    closed spec fn view(&self) -> Seq<ScopeRecord> {
        self.records@
    }
}

impl Forest {
    /// The list and the maps agree with the scopes that the forest stands for.
    pub closed spec fn wf(&self) -> bool {
        &&& self.nodes.len() == self.records@.len()
        &&& records_wf(self.records@)
        &&& entries(&self.roots) == children_under(self.records@, Seq::empty())
        &&& forall|i: int|
            0 <= i < self.nodes.len() ==> (#[trigger] self.nodes[i]).matches(self.records@, i)
    }

    /// The forest without scopes.
    pub fn new() -> (forest: Forest)
        ensures
            forest.wf(),
            forest@ == Seq::<ScopeRecord>::empty(),
    {
        Forest { nodes: Vec::new(), roots: map_new(), records: Ghost(Seq::empty()) }
    }

    /// The scopes of a forest are those of a walk: each has a path, no two
    /// share one, and the scope around a scope stands before it; and there
    /// are no more of them than a list can hold.
    pub proof fn lemma_records_wf(&self)
        requires
            self.wf(),
        ensures
            records_wf(self@),
            self@.len() <= usize::MAX,
    {
    }

    /// The number of scopes.
    pub fn len(&self) -> (n: usize)
        requires
            self.wf(),
        ensures
            n == self@.len(),
    {
        self.nodes.len()
    }

    /// The name of the scope at `at`: the last name of its path.
    pub fn name(&self, at: usize) -> (name: &String)
        requires
            self.wf(),
            at < self@.len(),
        ensures
            name@ == self@[at as int].path.last(),
    {
        &self.nodes[at].name
    }

    /// The number of scopes around the scope at `at`.
    pub fn depth(&self, at: usize) -> (depth: usize)
        requires
            self.wf(),
            at < self@.len(),
        ensures
            depth + 1 == self@[at as int].path.len(),
    {
        self.nodes[at].depth
    }

    /// The durations of the calls that ended in the scope at `at`.
    pub fn measures(&self, at: usize) -> (measures: &Vec<u64>)
        requires
            self.wf(),
            at < self@.len(),
        ensures
            measures@ == self@[at as int].durations,
    {
        &self.nodes[at].measures
    }

    /// The number of scopes directly under the scope at `parent`, of roots
    /// where `parent` is `None`.
    pub fn child_count(&self, parent: Option<usize>) -> (n: usize)
        requires
            self.wf(),
            parent matches Some(p) ==> p < self@.len(),
        ensures
            n == children_under(self@, path_of(self@, parent)).len(),
    {
        match parent {
            Some(p) => {
                assert(self.nodes[p as int].matches(self.records@, p as int));
                map_len(&self.nodes[p].children)
            },
            None => map_len(&self.roots),
        }
    }

    /// The position of the scope that was the `c`-th to be entered directly
    /// under the scope at `parent` (among the roots where `parent` is `None`).
    pub fn child(&self, parent: Option<usize>, c: usize) -> (at: usize)
        requires
            self.wf(),
            parent matches Some(p) ==> p < self@.len(),
            c < children_under(self@, path_of(self@, parent)).len(),
        ensures
            at == children_under(self@, path_of(self@, parent))[c as int].1,
            at < self@.len(),
            is_child(self@[at as int].path, path_of(self@, parent)),
            parent matches Some(p) ==> p < at,
    {
        let found = match parent {
            Some(p) => {
                assert(self.nodes[p as int].matches(self.records@, p as int));
                map_value_at(&self.nodes[p].children, c)
            },
            None => map_value_at(&self.roots, c),
        };
        proof {
            lemma_children_sound(self@, path_of(self@, parent), c as int);
            let at = children_under(self@, path_of(self@, parent))[c as int].1;
            assert(self@[at as int].path.drop_last() =~= path_of(self@, parent));
            lemma_parent_before(self@, at as int);
        }
        match found {
            Some(at) => at,
            // Not reached: `c` is below the number of pairs.
            None => 0,
        }
    }

    /// Finds the scope `name` directly under the scope at `parent` (among the
    /// roots where `parent` is `None`), adds it if the forest does not have
    /// it yet, and returns its position.
    pub fn child_of(&mut self, parent: Option<usize>, name: &String) -> (at: usize)
        requires
            old(self).wf(),
            parent matches Some(p) ==> p < old(self)@.len(),
        ensures
            final(self).wf(),
            at < final(self)@.len(),
            final(self)@[at as int].path == path_of(old(self)@, parent).push(name@),
            final(self)@ == if has_path(old(self)@, path_of(old(self)@, parent).push(name@)) {
                old(self)@
            } else {
                old(self)@.push(
                    ScopeRecord {
                        path: path_of(old(self)@, parent).push(name@),
                        durations: Seq::empty(),
                    },
                )
            },
    {
        let ghost before = self.records@;
        let ghost above = path_of(before, parent);
        let ghost path = above.push(name@);
        let found = match parent {
            Some(p) => map_find(&self.nodes[p].children, name),
            None => map_find(&self.roots, name),
        };
        proof {
            assert(path.drop_last() =~= above);
            if let Some(p) = parent {
                assert(self.nodes[p as int].matches(before, p as int));
            }
        }
        match found {
            Some((k, at)) => {
                proof {
                    lemma_children_sound(before, above, k as int);
                }
                at
            },
            None => {
                let at = self.nodes.len();
                proof {
                    assert forall|j: int| 0 <= j < before.len() implies (#[trigger] before[j]).path
                        != path by {
                        if before[j].path == path {
                            lemma_children_complete(before, above, j);
                        }
                    }
                }
                let depth = match parent {
                    Some(p) => {
                        assert(self.nodes[p as int].matches(before, p as int));
                        assert(1 <= before[p as int].path.len() <= p + 1);
                        self.nodes[p].depth + 1
                    },
                    None => 0,
                };
                let ghost record = ScopeRecord { path, durations: Seq::empty() };
                let ghost after = before.push(record);
                match parent {
                    Some(p) => {
                        let _ = map_insert(&mut self.nodes[p].children, name.clone(), at);
                    },
                    None => {
                        let _ = map_insert(&mut self.roots, name.clone(), at);
                    },
                }
                self.nodes.push(Node::new(name.clone(), depth));
                self.records = Ghost(after);
                proof {
                    if above.len() > 0 {
                        assert(before[parent.unwrap() as int].path == above);
                    }
                    lemma_grow_wf(before, above, name@);
                    lemma_children_push(before, record, Seq::empty());
                    assert forall|i: int| 0 <= i < self.nodes.len() implies (
                    #[trigger] self.nodes[i]).matches(after, i) by {
                        if i < before.len() {
                            lemma_children_push(before, record, before[i].path);
                            assert(old(self).nodes[i].matches(before, i));
                            if parent == Some(i as usize) {
                            } else {
                                if is_child(path, before[i].path) {
                                    if let Some(p) = parent {
                                        assert(before[p as int].path == before[i].path);
                                    }
                                }
                            }
                        } else {
                            lemma_children_push(before, record, path);
                            assert forall|j: int| 0 <= j < before.len() implies !is_child(
                                (#[trigger] before[j]).path,
                                path,
                            ) by {
                                if is_child(before[j].path, path) {
                                    assert(before[j].path.len() > 1);
                                }
                            }
                            lemma_no_children(before, path);
                        }
                    }
                }
                at
            },
        }
    }

    /// Adds the duration `d` to the scope at `at`.
    pub fn record(&mut self, at: usize, d: u64)
        requires
            old(self).wf(),
            at < old(self)@.len(),
        ensures
            final(self).wf(),
            final(self)@ == credit(old(self)@, old(self)@[at as int].path, d),
    {
        let ghost before = self.records@;
        let ghost after = credit(before, before[at as int].path, d);
        self.nodes[at].measures.push(d);
        self.records = Ghost(after);
        proof {
            lemma_credit_wf(before, before[at as int].path, d);
            lemma_children_same_paths(before, after, Seq::empty());
            assert forall|i: int| 0 <= i < self.nodes.len() implies (#[trigger] self.nodes[i]).matches(
                after,
                i,
            ) by {
                assert(old(self).nodes[i].matches(before, i));
                lemma_children_same_paths(before, after, before[i].path);
                if i != at {
                    assert(before[i].path != before[at as int].path);
                }
            }
        }
    }
}

/// Where no scope stands directly under `parent`, `children_under` is empty.
pub proof fn lemma_no_children(records: Seq<ScopeRecord>, parent: Seq<Seq<char>>)
    requires
        forall|j: int| 0 <= j < records.len() ==> !is_child((#[trigger] records[j]).path, parent),
    ensures
        children_under(records, parent) == Seq::<(Seq<char>, usize)>::empty(),
    decreases records.len(),
{
    if records.len() > 0 {
        assert(!is_child(records[records.len() - 1].path, parent));
        assert forall|j: int| 0 <= j < records.drop_last().len() implies !is_child(
            (#[trigger] records.drop_last()[j]).path,
            parent,
        ) by {
            assert(!is_child(records[j].path, parent));
        }
        lemma_no_children(records.drop_last(), parent);
    }
}

/// Rebuilds the forest of one thread from its log.
///
/// A `Start` moves into the scope of that name under the scope that is open,
/// adding it where it is new; where scopes are collapsed and the open scope
/// has that very name, the call stays in the open scope. An `End` credits
/// the scope of the innermost pending call with the time since that call
/// began and moves back to the scope of the call around it.
pub fn into_tree(measures: &Vec<Measure>, mode: Hierarchy) -> (forest: Forest)
    requires
        balanced(measures@),
    ensures
        forest.wf(),
        forest@ == forest_of(measures@, mode),
{
    let mut forest = Forest::new();
    let mut current_path: Vec<usize> = Vec::new();
    let mut start_times: Vec<u64> = Vec::new();
    let mut k: usize = 0;
    while k < measures.len()
        invariant
            k <= measures.len(),
            balanced(measures@),
            forest.wf(),
            forest@ == walk(measures@.take(k as int), mode).records,
            start_times@ == walk(measures@.take(k as int), mode).starts,
            current_path.len() == walk(measures@.take(k as int), mode).nodes.len(),
            forall|l: int|
                0 <= l < current_path.len() ==> (#[trigger] current_path[l]) < forest@.len()
                    && forest@[current_path[l] as int].path == walk(
                    measures@.take(k as int),
                    mode,
                ).nodes[l],
        decreases measures.len() - k,
    {
        let ghost w = walk(measures@.take(k as int), mode);
        let ghost old_path = current_path@;
        let ghost old_records = forest@;
        proof {
            lemma_walk_take(measures@, k as int, mode);
            lemma_walk_wf(measures@.take(k as int), mode);
            lemma_walk_depth(measures@.take(k as int), mode);
            lemma_depth_take(measures@, k as int);
        }
        let m = &measures[k];
        match &m.ty {
            MeasureType::Start { name } => {
                start_times.push(m.time);
                let parent = if current_path.len() == 0 {
                    None
                } else {
                    Some(current_path[current_path.len() - 1])
                };
                let stay = match (mode, parent) {
                    (Hierarchy::Collapsed, Some(p)) => *forest.name(p) == *name,
                    _ => false,
                };
                proof {
                    assert(stay == stays(w.open, name@, mode));
                }
                let at = match (stay, parent) {
                    (true, Some(p)) => p,
                    _ => forest.child_of(parent, name),
                };
                current_path.push(at);
                proof {
                    let next = enter(w, name@, m.time, mode);
                    if stay {
                        assert(has_path(w.records, w.open));
                    }
                    assert(forest@ == next.records);
                    assert forall|l: int| 0 <= l < current_path.len() implies (
                    #[trigger] current_path[l]) < forest@.len() && forest@[current_path[l] as int].path
                        == next.nodes[l] by {
                        if l < old_path.len() {
                            assert(current_path[l] == old_path[l]);
                            assert(old_records[old_path[l] as int].path == w.nodes[l]);
                            assert(forest@[old_path[l] as int] == old_records[old_path[l] as int]);
                        }
                    }
                }
            },
            MeasureType::End => {
                proof {
                    assert(measures@[k as int].ty is End);
                    assert(w.nodes.len() > 0);
                }
                let at = current_path[current_path.len() - 1];
                let start = start_times[start_times.len() - 1];
                let d = duration_between(start, m.time);
                forest.record(at, d);
                current_path.pop();
                start_times.pop();
                proof {
                    let next = exit(w, m.time);
                    assert(start_times@ =~= next.starts);
                    assert forall|l: int| 0 <= l < current_path.len() implies (
                    #[trigger] current_path[l]) < forest@.len() && forest@[current_path[l] as int].path
                        == next.nodes[l] by {
                        assert(current_path[l] == old_path[l]);
                        assert(old_records[old_path[l] as int].path == w.nodes[l]);
                    }
                }
            },
        }
        k = k + 1;
    }
    proof {
        assert(measures@.take(k as int) =~= measures@);
    }
    forest
}

} // verus!
