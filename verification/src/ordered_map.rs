//! The insertion-ordered map from scope names to positions, `indexmap::IndexMap`,
//! and what this crate relies on of it.

use indexmap::IndexMap;
use vstd::prelude::*;

verus! {

/// `indexmap::IndexMap`, a hash map that keeps its pairs in the order in
/// which their keys were first inserted. Nothing inside a map is visible
/// here; what it holds goes by the name [`entries`].
#[verifier::external_type_specification]
#[verifier::external_body]
#[verifier::reject_recursive_types(K)]
#[verifier::reject_recursive_types(V)]
#[verifier::reject_recursive_types(S)]
pub struct ExIndexMap<K, V, S>(IndexMap<K, V, S>);

/// The key-value pairs that a map holds, in the order in which it hands them
/// out: the order in which their keys were first inserted.
pub uninterp spec fn entries(map: &IndexMap<String, usize>) -> Seq<(Seq<char>, usize)>;

/// No pair of `pairs` has the key `key`.
pub open spec fn lacks_key(pairs: Seq<(Seq<char>, usize)>, key: Seq<char>) -> bool {
    forall|i: int| 0 <= i < pairs.len() ==> (#[trigger] pairs[i]).0 != key
}

/// `IndexMap::new`: a map without pairs.
#[verifier::external_body]
pub(crate) fn map_new() -> (map: IndexMap<String, usize>)
    ensures
        entries(&map) == Seq::<(Seq<char>, usize)>::empty(),
{
    IndexMap::new()
}

/// `IndexMap::len`: the number of pairs.
#[verifier::external_body]
pub(crate) fn map_len(map: &IndexMap<String, usize>) -> (n: usize)
    ensures
        n == entries(map).len(),
{
    map.len()
}

/// `IndexMap::get_full`: the position and the value of the pair whose key
/// equals `key`, or `None` where no pair has that key.
#[verifier::external_body]
pub(crate) fn map_find(map: &IndexMap<String, usize>, key: &String) -> (found: Option<(usize, usize)>)
    ensures
        match found {
            Some((at, value)) => at < entries(map).len() && entries(map)[at as int] == (key@, value),
            None => lacks_key(entries(map), key@),
        },
{
    map.get_full(key).map(|(at, _, value)| (at, *value))
}

/// `IndexMap::get_index`: the value of the pair at position `at`, or `None`
/// where `at` is not below the number of pairs.
#[verifier::external_body]
pub(crate) fn map_value_at(map: &IndexMap<String, usize>, at: usize) -> (value: Option<usize>)
    ensures
        at < entries(map).len() ==> value == Some(entries(map)[at as int].1),
        at >= entries(map).len() ==> value.is_none(),
{
    map.get_index(at).map(|(_, value)| *value)
}

/// `IndexMap::insert`: where a pair has the key already, it keeps its place
/// and takes the new value, and the old value comes back; else the new pair
/// goes last and `None` comes back.
#[verifier::external_body]
pub(crate) fn map_insert(map: &mut IndexMap<String, usize>, key: String, value: usize) -> (previous: Option<usize>)
    ensures
        match previous {
            Some(before) => exists|at: int|
                0 <= at < entries(old(map)).len() && #[trigger] entries(old(map))[at] == (key@, before)
                    && entries(final(map)) == entries(old(map)).update(at, (key@, value)),
            None => lacks_key(entries(old(map)), key@) && entries(final(map)) == entries(
                old(map),
            ).push((key@, value)),
        },
{
    map.insert(key, value)
}

} // verus!
