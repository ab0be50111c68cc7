//! What the merge of all threads is, stated over the rows that the threads
//! hand in: for each key, the calls and the CPU time of all rows together,
//! and as wall-clock time the most that one thread spent.

use crate::timing::percent_of;
use vstd::prelude::*;

verus! {

/// Whether a scope is known in the merged table by its bare name, so that
/// every depth of a recursion and every thread falls into one entry, or by
/// its name with the depth marked, so that each depth keeps an entry.
#[derive(Clone, Copy, Debug, PartialEq, Eq, Structural)]
pub enum Hierarchy {
    Collapsed,
    Deep,
}

/// One scope of one thread as it enters the merge.
pub struct Row {
    /// The key under which rows are merged.
    pub key: Seq<char>,
    /// The name of the scope.
    pub name: Seq<char>,
    /// The name as the table shows it.
    pub label: Seq<char>,
    /// The number of calls.
    pub calls: nat,
    /// The time that the calls took together.
    pub total: nat,
    /// The thread that ran them.
    pub thread: nat,
}

/// A figure that is added up over the rows of a key.
pub enum Figure {
    /// The number of calls.
    Calls,
    /// The time of all threads.
    Cpu,
    /// The time of one thread.
    InThread(nat),
    /// The share of the given time that an outermost scope took.
    RootShare(nat),
}

/// The row is that of an outermost scope: its name is shown without a
/// margin.
pub open spec fn is_root_row(r: Row) -> bool {
    r.label == r.name
}

/// What the row `r` adds to the figure `what`.
pub open spec fn amount(r: Row, what: Figure) -> nat {
    match what {
        Figure::Calls => r.calls,
        Figure::Cpu => r.total,
        Figure::InThread(t) => if r.thread == t {
            r.total
        } else {
            0
        },
        Figure::RootShare(whole) => if is_root_row(r) {
            percent_of(r.total, whole)
        } else {
            0
        },
    }
}

/// The figure `what` added up over the rows of `rows` whose key is `key`.
pub open spec fn total_of(rows: Seq<Row>, key: Seq<char>, what: Figure) -> nat
    decreases rows.len(),
{
    if rows.len() == 0 {
        0
    } else {
        total_of(rows.drop_last(), key, what) + if rows.last().key == key {
            amount(rows.last(), what)
        } else {
            0
        }
    }
}

/// The most that one of the threads `0` to `threads - 1` spent in the scope
/// `key`.
pub open spec fn real_of(rows: Seq<Row>, key: Seq<char>, threads: nat) -> nat
    decreases threads,
{
    if threads == 0 {
        0
    } else {
        let before = real_of(rows, key, (threads - 1) as nat);
        let last = total_of(rows, key, Figure::InThread((threads - 1) as nat));
        if before >= last {
            before
        } else {
            last
        }
    }
}

/// The keys of `rows`, each once, in the order in which they first occur.
pub open spec fn keys(rows: Seq<Row>) -> Seq<Seq<char>>
    decreases rows.len(),
{
    if rows.len() == 0 {
        Seq::empty()
    } else {
        let before = keys(rows.drop_last());
        if before.contains(rows.last().key) {
            before
        } else {
            before.push(rows.last().key)
        }
    }
}

/// The name of the first row of `rows` whose key is `key`.
pub open spec fn name_of(rows: Seq<Row>, key: Seq<char>) -> Seq<char>
    decreases rows.len(),
{
    if rows.len() == 0 {
        Seq::empty()
    } else if keys(rows.drop_last()).contains(key) || rows.last().key != key {
        name_of(rows.drop_last(), key)
    } else {
        rows.last().name
    }
}

/// The thread of the first row of `rows` whose key is `key`.
pub open spec fn thread_of(rows: Seq<Row>, key: Seq<char>) -> nat
    decreases rows.len(),
{
    if rows.len() == 0 {
        0
    } else if keys(rows.drop_last()).contains(key) || rows.last().key != key {
        thread_of(rows.drop_last(), key)
    } else {
        rows.last().thread
    }
}

/// The shortest label among the rows of `rows` whose key is `key`, the first
/// of them where several are as short.
pub open spec fn label_of(rows: Seq<Row>, key: Seq<char>) -> Seq<char>
    decreases rows.len(),
{
    if rows.len() == 0 {
        Seq::empty()
    } else if rows.last().key != key {
        label_of(rows.drop_last(), key)
    } else if keys(rows.drop_last()).contains(key) && label_of(rows.drop_last(), key).len()
        <= rows.last().label.len() {
        label_of(rows.drop_last(), key)
    } else {
        rows.last().label
    }
}

/// The CPU time of the keys `ks` together.
pub open spec fn cpu_sum(rows: Seq<Row>, ks: Seq<Seq<char>>) -> nat
    decreases ks.len(),
{
    if ks.len() == 0 {
        0
    } else {
        cpu_sum(rows, ks.drop_last()) + total_of(rows, ks.last(), Figure::Cpu)
    }
}

/// What one more row does to a figure.
pub proof fn lemma_total_push(rows: Seq<Row>, r: Row, key: Seq<char>, what: Figure)
    ensures
        total_of(rows.push(r), key, what) == total_of(rows, key, what) + if r.key == key {
            amount(r, what)
        } else {
            0
        },
{
    assert(rows.push(r).drop_last() =~= rows);
}

/// A figure over two lists, one behind the other, is the sum of the two.
pub proof fn lemma_total_concat(a: Seq<Row>, b: Seq<Row>, key: Seq<char>, what: Figure)
    ensures
        total_of(a + b, key, what) == total_of(a, key, what) + total_of(b, key, what),
    decreases b.len(),
{
    if b.len() == 0 {
        assert(a + b =~= a);
    } else {
        assert((a + b).drop_last() =~= a + b.drop_last());
        lemma_total_concat(a, b.drop_last(), key, what);
    }
}

/// A key that no row has adds up to nothing.
pub proof fn lemma_total_absent(rows: Seq<Row>, key: Seq<char>, what: Figure)
    requires
        !keys(rows).contains(key),
    ensures
        total_of(rows, key, what) == 0,
    decreases rows.len(),
{
    if rows.len() > 0 {
        lemma_keys_cover(rows, rows.len() - 1);
        let before = keys(rows.drop_last());
        if before.contains(key) {
            let j = choose|j: int| 0 <= j < before.len() && before[j] == key;
            assert(keys(rows)[j] == key);
        }
        lemma_total_absent(rows.drop_last(), key, what);
    }
}

/// The key of every row is among the keys.
pub proof fn lemma_keys_cover(rows: Seq<Row>, i: int)
    requires
        0 <= i < rows.len(),
    ensures
        keys(rows).contains(rows[i].key),
    decreases rows.len(),
{
    let before = keys(rows.drop_last());
    if i == rows.len() - 1 {
        if before.contains(rows.last().key) {
        } else {
            assert(keys(rows)[before.len() as int] == rows.last().key);
        }
    } else {
        lemma_keys_cover(rows.drop_last(), i);
        let j = choose|j: int| 0 <= j < before.len() && before[j] == rows[i].key;
        assert(keys(rows)[j] == rows[i].key);
    }
}

/// No key occurs twice among the keys.
pub proof fn lemma_keys_distinct(rows: Seq<Row>)
    ensures
        forall|a: int, b: int| 0 <= a < b < keys(rows).len() ==> keys(rows)[a] != keys(rows)[b],
    decreases rows.len(),
{
    if rows.len() > 0 {
        lemma_keys_distinct(rows.drop_last());
        let before = keys(rows.drop_last());
        assert forall|a: int, b: int| 0 <= a < b < keys(rows).len() implies keys(rows)[a] != keys(
            rows,
        )[b] by {
            if b < before.len() {
                assert(before[a] != before[b]);
            } else {
                assert(before[a] == keys(rows)[a]);
            }
        }
    }
}

/// The most that one thread spent depends on the threads' own times only.
pub proof fn lemma_real_same(a: Seq<Row>, b: Seq<Row>, key: Seq<char>, threads: nat)
    requires
        forall|t: nat|
            t < threads ==> total_of(a, key, Figure::InThread(t)) == total_of(
                b,
                key,
                Figure::InThread(t),
            ),
    ensures
        real_of(a, key, threads) == real_of(b, key, threads),
    decreases threads,
{
    if threads > 0 {
        lemma_real_same(a, b, key, (threads - 1) as nat);
    }
}

/// Threads that spent nothing in the scope do not raise the most that one
/// thread spent.
pub proof fn lemma_real_idle(rows: Seq<Row>, key: Seq<char>, from: nat, threads: nat)
    requires
        from <= threads,
        forall|t: nat| from <= t < threads ==> total_of(rows, key, Figure::InThread(t)) == 0,
    ensures
        real_of(rows, key, threads) == real_of(rows, key, from),
    decreases threads,
{
    if threads > from {
        lemma_real_idle(rows, key, from, (threads - 1) as nat);
    }
}

/// No thread spent more in a scope than all threads together.
pub proof fn lemma_thread_within_cpu(rows: Seq<Row>, key: Seq<char>, t: nat)
    ensures
        total_of(rows, key, Figure::InThread(t)) <= total_of(rows, key, Figure::Cpu),
    decreases rows.len(),
{
    if rows.len() > 0 {
        lemma_thread_within_cpu(rows.drop_last(), key, t);
    }
}

/// The figure `what` added up over all rows.
pub open spec fn rows_sum(rows: Seq<Row>, what: Figure) -> nat
    decreases rows.len(),
{
    if rows.len() == 0 {
        0
    } else {
        rows_sum(rows.drop_last(), what) + amount(rows.last(), what)
    }
}

/// The figure `what` of the keys `ks`, added up.
pub open spec fn keys_sum(rows: Seq<Row>, ks: Seq<Seq<char>>, what: Figure) -> nat
    decreases ks.len(),
{
    if ks.len() == 0 {
        0
    } else {
        keys_sum(rows, ks.drop_last(), what) + total_of(rows, ks.last(), what)
    }
}

/// A figure over all rows of two lists, one behind the other, is the sum of
/// the two.
pub proof fn lemma_rows_sum_concat(a: Seq<Row>, b: Seq<Row>, what: Figure)
    ensures
        rows_sum(a + b, what) == rows_sum(a, what) + rows_sum(b, what),
    decreases b.len(),
{
    if b.len() == 0 {
        assert(a + b =~= a);
    } else {
        assert((a + b).drop_last() =~= a + b.drop_last());
        lemma_rows_sum_concat(a, b.drop_last(), what);
    }
}

/// A row of a key that is not among `ks` changes nothing for `ks`.
proof fn lemma_keys_sum_other(rows: Seq<Row>, r: Row, ks: Seq<Seq<char>>, what: Figure)
    requires
        !ks.contains(r.key),
    ensures
        keys_sum(rows.push(r), ks, what) == keys_sum(rows, ks, what),
    decreases ks.len(),
{
    if ks.len() > 0 {
        assert(ks[ks.len() - 1] != r.key);
        assert forall|i: int| 0 <= i < ks.drop_last().len() implies ks.drop_last()[i] != r.key by {
            assert(ks[i] != r.key);
        }
        lemma_keys_sum_other(rows, r, ks.drop_last(), what);
        lemma_total_push(rows, r, ks.last(), what);
    }
}

/// A row of a key that is once among `ks` adds what it holds.
proof fn lemma_keys_sum_one(rows: Seq<Row>, r: Row, ks: Seq<Seq<char>>, what: Figure)
    requires
        ks.contains(r.key),
        forall|a: int, b: int| 0 <= a < b < ks.len() ==> ks[a] != ks[b],
    ensures
        keys_sum(rows.push(r), ks, what) == keys_sum(rows, ks, what) + amount(r, what),
    decreases ks.len(),
{
    let rest = ks.drop_last();
    lemma_total_push(rows, r, ks.last(), what);
    if ks.last() == r.key {
        assert forall|i: int| 0 <= i < rest.len() implies rest[i] != r.key by {
            assert(ks[i] != ks[ks.len() - 1]);
        }
        lemma_keys_sum_other(rows, r, rest, what);
    } else {
        let i = choose|i: int| 0 <= i < ks.len() && ks[i] == r.key;
        assert(rest[i] == r.key);
        assert forall|a: int, b: int| 0 <= a < b < rest.len() implies rest[a] != rest[b] by {
            assert(ks[a] != ks[b]);
        }
        lemma_keys_sum_one(rows, r, rest, what);
    }
}

/// Every row falls under one key: a figure added up key by key is the
/// figure added up row by row.
pub proof fn lemma_keys_partition(rows: Seq<Row>, what: Figure)
    ensures
        keys_sum(rows, keys(rows), what) == rows_sum(rows, what),
    decreases rows.len(),
{
    if rows.len() > 0 {
        let before = rows.drop_last();
        let r = rows.last();
        assert(rows =~= before.push(r));
        lemma_keys_partition(before, what);
        lemma_keys_distinct(before);
        if keys(before).contains(r.key) {
            lemma_keys_sum_one(before, r, keys(before), what);
        } else {
            lemma_keys_sum_other(before, r, keys(before), what);
            lemma_total_absent(before, r.key, what);
            lemma_total_push(before, r, r.key, what);
            assert(keys(rows).drop_last() =~= keys(before));
        }
    }
}

/// A key that only one row has adds up to what that row holds.
pub proof fn lemma_total_single(rows: Seq<Row>, a: int, what: Figure)
    requires
        0 <= a < rows.len(),
        forall|b: int| 0 <= b < rows.len() && b != a ==> (#[trigger] rows[b]).key != rows[a].key,
    ensures
        total_of(rows, rows[a].key, what) == amount(rows[a], what),
    decreases rows.len(),
{
    let rest = rows.drop_last();
    if a == rows.len() - 1 {
        assert forall|b: int| 0 <= b < rest.len() implies amount(#[trigger] rest[b], what) == 0
            || rest[b].key != rows[a].key by {
            assert(rows[b].key != rows[a].key);
        }
        lemma_total_none(rest, rows[a].key, what);
    } else {
        assert(rows[rows.len() - 1].key != rows[a].key);
        assert forall|b: int| 0 <= b < rest.len() && b != a implies (#[trigger] rest[b]).key
            != rest[a].key by {
            assert(rows[b].key != rows[a].key);
        }
        lemma_total_single(rest, a, what);
    }
}

/// A key all of whose rows hold nothing adds up to nothing.
pub proof fn lemma_total_none(rows: Seq<Row>, key: Seq<char>, what: Figure)
    requires
        forall|b: int|
            0 <= b < rows.len() ==> amount(#[trigger] rows[b], what) == 0 || rows[b].key != key,
    ensures
        total_of(rows, key, what) == 0,
    decreases rows.len(),
{
    if rows.len() > 0 {
        let last = rows.len() - 1;
        assert(amount(rows[last], what) == 0 || rows[last].key != key);
        assert forall|b: int| 0 <= b < rows.drop_last().len() implies amount(
            #[trigger] rows.drop_last()[b],
            what,
        ) == 0 || rows.drop_last()[b].key != key by {
            assert(amount(rows[b], what) == 0 || rows[b].key != key);
        }
        lemma_total_none(rows.drop_last(), key, what);
    }
}

} // verus!
