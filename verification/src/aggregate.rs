//! Merges the rows of all threads into one table: one entry per key, in the
//! order in which the keys first came.

use crate::ordered_map::{entries, map_find, map_insert, map_new};
use crate::rows::{
    cpu_sum, keys, label_of, lemma_keys_distinct, lemma_real_idle, lemma_real_same,
    lemma_thread_within_cpu, lemma_total_absent, lemma_total_push, name_of, real_of, thread_of,
    total_of, Figure, Hierarchy, Row,
};
use crate::timing::{average_of, percent_of, Timing};
use indexmap::IndexMap;
use vstd::prelude::*;

verus! {

/// The key under which `t` is merged.
pub open spec fn key_view(t: Timing, mode: Hierarchy) -> Seq<char> {
    match mode {
        Hierarchy::Collapsed => t.name@,
        Hierarchy::Deep => t.formatted_name@,
    }
}

/// The figures of one scope of one thread as a row of the merge.
pub open spec fn row_view(t: Timing, mode: Hierarchy) -> Row {
    Row {
        key: key_view(t, mode),
        name: t.name@,
        label: t.formatted_name@,
        calls: t.calls as nat,
        total: t.total_cpu as nat,
        thread: t.thread as nat,
    }
}

/// The key under which `timing` is merged: its name, or its formatted name
/// where each depth keeps its own entry.
pub fn key_of(timing: &Timing, mode: Hierarchy) -> (key: &String)
    ensures
        key@ == key_view(*timing, mode),
{
    match mode {
        Hierarchy::Collapsed => &timing.name,
        Hierarchy::Deep => &timing.formatted_name,
    }
}

/// `t` holds what the rows `rows` say of the key `key`, but for the
/// percentages.
pub open spec fn summarises(t: Timing, rows: Seq<Row>, key: Seq<char>, mode: Hierarchy) -> bool {
    &&& key_view(t, mode) == key
    &&& t.name@ == name_of(rows, key)
    &&& t.thread == thread_of(rows, key)
    &&& t.formatted_name@ == label_of(rows, key)
    &&& t.calls == total_of(rows, key, Figure::Calls)
    &&& t.total_cpu == total_of(rows, key, Figure::Cpu)
    &&& t.average == average_of(t.total_cpu as nat, t.calls as nat)
    &&& t.thread_real == total_of(rows, key, Figure::InThread(t.last_thread as nat))
    &&& t.total_real == real_of(rows, key, (t.last_thread + 1) as nat)
    &&& forall|s: nat| s > t.last_thread ==> total_of(rows, key, Figure::InThread(s)) == 0
}

/// The table of the rows `rows`, but for the percentages: entry `j` is that
/// of the `j`-th key.
pub open spec fn tabulates(timings: Seq<Timing>, rows: Seq<Row>, mode: Hierarchy) -> bool {
    &&& timings.len() == keys(rows).len()
    &&& forall|j: int|
        0 <= j < timings.len() ==> summarises(#[trigger] timings[j], rows, keys(rows)[j], mode)
            && rows.len() > 0 && timings[j].last_thread <= rows.last().thread
}

/// The merge as it goes on: the entries so far, and where each key has its
/// entry. Rows are counted in thread by thread.
pub(crate) struct Aggregator {
    timings: Vec<Timing>,
    index: IndexMap<String, usize>,
    mode: Hierarchy,
    rows: Ghost<Seq<Row>>,
}

impl View for Aggregator {
    type V = Seq<Row>;

    /// The rows counted so far.
    closed spec fn view(&self) -> Seq<Row> {
        self.rows@
    }
}

impl Aggregator {
    /// The entries and the index agree with the rows counted so far.
    pub(crate) closed spec fn wf(&self) -> bool {
        &&& tabulates(self.timings@, self.rows@, self.mode)
        &&& entries(&self.index) == Seq::new(
            keys(self.rows@).len(),
            |j: int| (keys(self.rows@)[j], j as usize),
        )
    }

    /// How keys are formed.
    pub(crate) closed spec fn mode(&self) -> Hierarchy {
        self.mode
    }

    /// The entries so far.
    pub(crate) closed spec fn timings(&self) -> Seq<Timing> {
        self.timings@
    }

    /// A merge that has counted nothing yet.
    pub(crate) fn new(mode: Hierarchy) -> (aggregator: Aggregator)
        ensures
            aggregator.wf(),
            aggregator.mode() == mode,
            aggregator@ == Seq::<Row>::empty(),
    {
        let aggregator = Aggregator {
            timings: Vec::new(),
            index: map_new(),
            mode,
            rows: Ghost(Seq::empty()),
        };
        assert(entries(&aggregator.index) =~= Seq::new(
            keys(aggregator.rows@).len(),
            |j: int| (keys(aggregator.rows@)[j], j as usize),
        ));
        aggregator
    }

    /// The entries are the table of the rows counted.
    pub(crate) proof fn lemma_tabulates(&self)
        requires
            self.wf(),
        ensures
            tabulates(self.timings(), self@, self.mode()),
    {
    }

    /// Counts one more row in: into the entry of its key, or as a new last
    /// entry where the key is new. Returns `false`, and leaves the merge as
    /// it is, where the calls or the CPU time of the key would leave their
    /// range.
    pub(crate) fn add(&mut self, timing: &Timing) -> (added: bool)
        requires
            old(self).wf(),
            timing.is_row(),
            old(self)@.len() > 0 ==> old(self)@.last().thread <= timing.thread,
        ensures
            final(self).wf(),
            final(self).mode() == old(self).mode(),
            added <==> total_of(
                old(self)@.push(row_view(*timing, old(self).mode())),
                key_view(*timing, old(self).mode()),
                Figure::Calls,
            ) <= usize::MAX && total_of(
                old(self)@.push(row_view(*timing, old(self).mode())),
                key_view(*timing, old(self).mode()),
                Figure::Cpu,
            ) <= u64::MAX,
            added ==> final(self)@ == old(self)@.push(row_view(*timing, old(self).mode())),
            !added ==> final(self)@ == old(self)@,
    {
        let ghost before = self.rows@;
        let ghost r = row_view(*timing, self.mode);
        let ghost after = before.push(r);
        let ghost k = r.key;
        let ghost old_timings = self.timings@;
        let key = key_of(timing, self.mode);
        proof {
            lemma_keys_distinct(before);
            lemma_total_push(before, r, k, Figure::Calls);
            lemma_total_push(before, r, k, Figure::Cpu);
            assert(after.drop_last() =~= before);
        }
        match map_find(&self.index, key) {
            Some((pos, at)) => {
                assert(at == pos && keys(before)[pos as int] == k);
                let ghost entry = self.timings[at as int];
                proof {
                    assert(summarises(entry, before, k, self.mode));
                    lemma_thread_within_cpu(before, k, entry.last_thread as nat);
                }
                let merged = self.timings[at].merge(timing);
                if !merged {
                    assert(self.timings@ =~= old_timings);
                    return false;
                }
                self.rows = Ghost(after);
                proof {
                    assert(keys(before).contains(k));
                    assert(keys(after) == keys(before));
                    let i = timing.thread as nat;
                    let s = entry.last_thread as nat;
                    assert forall|j: int| 0 <= j < self.timings.len() implies summarises(
                        #[trigger] self.timings[j],
                        after,
                        keys(after)[j],
                        self.mode,
                    ) && self.timings[j].last_thread <= after.last().thread by {
                        let kj = keys(before)[j];
                        assert(summarises(old_timings[j], before, kj, self.mode));
                        if j == at {
                            let t = self.timings[j];
                            lemma_total_push(before, r, k, Figure::InThread(i));
                            assert forall|u: nat| u > i implies total_of(
                                after,
                                k,
                                Figure::InThread(u),
                            ) == 0 by {
                                lemma_total_push(before, r, k, Figure::InThread(u));
                            }
                            assert forall|u: nat| u < i implies total_of(
                                after,
                                k,
                                Figure::InThread(u),
                            ) == total_of(before, k, Figure::InThread(u)) by {
                                lemma_total_push(before, r, k, Figure::InThread(u));
                            }
                            lemma_real_same(after, before, k, i);
                            if s < i {
                                lemma_real_idle(before, k, s + 1, i);
                            }
                        } else {
                            assert(kj != k);
                            assert(self.timings[j] == old_timings[j]);
                            lemma_unchanged(before, r, kj, old_timings[j], self.mode);
                        }
                    }
                }
                true
            },
            None => {
                let at = self.timings.len();
                proof {
                    assert forall|j: int| 0 <= j < keys(before).len() implies keys(before)[j]
                        != k by {
                        assert(entries(&self.index)[j].0 == keys(before)[j]);
                    }
                    assert(!keys(before).contains(k));
                    assert(keys(after) == keys(before).push(k));
                    lemma_total_absent(before, k, Figure::Calls);
                    lemma_total_absent(before, k, Figure::Cpu);
                }
                let _ = map_insert(&mut self.index, key.clone(), at);
                self.timings.push(timing.duplicate());
                self.rows = Ghost(after);
                proof {
                    let i = timing.thread as nat;
                    assert(entries(&self.index) =~= Seq::new(
                        keys(after).len(),
                        |j: int| (keys(after)[j], j as usize),
                    ));
                    assert forall|j: int| 0 <= j < self.timings.len() implies summarises(
                        #[trigger] self.timings[j],
                        after,
                        keys(after)[j],
                        self.mode,
                    ) && self.timings[j].last_thread <= after.last().thread by {
                        if j == at {
                            assert(self.timings[j] == *timing);
                            assert forall|u: nat| true implies total_of(
                                after,
                                k,
                                Figure::InThread(u),
                            ) == if u == i {
                                r.total
                            } else {
                                0
                            } by {
                                lemma_total_absent(before, k, Figure::InThread(u));
                                lemma_total_push(before, r, k, Figure::InThread(u));
                            }
                            lemma_real_idle(after, k, 0, i);
                        } else {
                            let kj = keys(before)[j];
                            assert(summarises(old_timings[j], before, kj, self.mode));
                            assert(self.timings[j] == old_timings[j]);
                            lemma_unchanged(before, r, kj, old_timings[j], self.mode);
                        }
                    }
                }
                true
            },
        }
    }

    /// Ends the merge: sets the percentages of every entry, against
    /// `total_app`, the time that the run took, and against the CPU time of
    /// all entries together, and hands the entries out.
    pub(crate) fn finish(self, total_app: u64) -> (timings: Vec<Timing>)
        requires
            self.wf(),
        ensures
            tabulates(timings@, self@, self.mode()),
            forall|j: int|
                0 <= j < timings.len() ==> (#[trigger] timings[j]).percent_app == percent_of(
                    timings[j].total_real as nat,
                    total_app as nat,
                ) && timings[j].percent_cpu == percent_of(
                    timings[j].total_cpu as nat,
                    cpu_sum(self@, keys(self@)),
                ),
    {
        let ghost rows = self.rows@;
        let ghost ks = keys(rows);
        let ghost mode = self.mode;
        let mut timings = self.timings;
        let mut total_cpu: u128 = 0;
        let mut j: usize = 0;
        while j < timings.len()
            invariant
                j <= timings.len(),
                tabulates(timings@, rows, mode),
                ks == keys(rows),
                total_cpu == cpu_sum(rows, ks.take(j as int)),
                total_cpu <= j * u64::MAX,
            decreases timings.len() - j,
        {
            proof {
                assert(ks.take(j + 1).drop_last() =~= ks.take(j as int));
                assert(summarises(timings[j as int], rows, ks[j as int], mode));
                assert((j + 1) * u64::MAX == j * u64::MAX + u64::MAX) by (nonlinear_arith);
                assert(j * u64::MAX <= usize::MAX * u64::MAX) by (nonlinear_arith)
                    requires
                        j <= usize::MAX,
                ;
            }
            total_cpu = total_cpu + timings[j].total_cpu as u128;
            j = j + 1;
        }
        proof {
            assert(ks.take(j as int) =~= ks);
        }
        let ghost merged = timings@;
        let mut j: usize = 0;
        while j < timings.len()
            invariant
                j <= timings.len(),
                timings.len() == merged.len(),
                tabulates(merged, rows, mode),
                tabulates(timings@, rows, mode),
                total_cpu == cpu_sum(rows, keys(rows)),
                forall|i: int|
                    0 <= i < j ==> (#[trigger] timings[i]).percent_app == percent_of(
                        timings[i].total_real as nat,
                        total_app as nat,
                    ) && timings[i].percent_cpu == percent_of(
                        timings[i].total_cpu as nat,
                        cpu_sum(rows, keys(rows)),
                    ),
            decreases timings.len() - j,
        {
            let ghost previous = timings@;
            timings[j].update_percent(total_app, total_cpu);
            proof {
                assert forall|i: int| 0 <= i < timings.len() implies summarises(
                    #[trigger] timings[i],
                    rows,
                    keys(rows)[i],
                    mode,
                ) && timings[i].last_thread <= rows.last().thread by {
                    assert(summarises(previous[i], rows, keys(rows)[i], mode));
                    if i != j {
                        assert(timings[i] == previous[i]);
                    }
                }
                assert forall|i: int| 0 <= i < j + 1 implies (#[trigger] timings[i]).percent_app
                    == percent_of(timings[i].total_real as nat, total_app as nat)
                    && timings[i].percent_cpu == percent_of(
                    timings[i].total_cpu as nat,
                    cpu_sum(rows, keys(rows)),
                ) by {
                    if i != j {
                        assert(timings[i] == previous[i]);
                    }
                }
            }
            j = j + 1;
        }
        timings
    }
}

/// A row of another key leaves an entry as it is.
proof fn lemma_unchanged(before: Seq<Row>, r: Row, key: Seq<char>, t: Timing, mode: Hierarchy)
    requires
        summarises(t, before, key, mode),
        keys(before).contains(key),
        r.key != key,
    ensures
        summarises(t, before.push(r), key, mode),
{
    let after = before.push(r);
    assert(after.drop_last() =~= before);
    lemma_total_push(before, r, key, Figure::Calls);
    lemma_total_push(before, r, key, Figure::Cpu);
    assert forall|u: nat| true implies total_of(after, key, Figure::InThread(u)) == total_of(
        before,
        key,
        Figure::InThread(u),
    ) by {
        lemma_total_push(before, r, key, Figure::InThread(u));
    }
    lemma_real_same(after, before, key, (t.last_thread + 1) as nat);
}

} // verus!
