//! The results of a run: the value of each node under the node's id, in the
//! order in which the ids were first inserted.

use vstd::prelude::*;
use std::collections::hash_map::RandomState;
use indexmap::IndexMap;
use crate::data::{Data, DataModel};

verus! {

/// `indexmap::IndexMap`: a map that keeps its entries in the order in which
/// their keys were first inserted. What it holds is seen through `entries`
/// alone.
#[verifier::external_type_specification]
#[verifier::external_body]
#[verifier::reject_recursive_types(K)]
#[verifier::reject_recursive_types(V)]
#[verifier::reject_recursive_types(S)]
pub struct ExIndexMap<K, V, S>(IndexMap<K, V, S>);

/// An ordered map from the id of a node to the value that the node produced.
pub type ResultMap = IndexMap<String, Data, RandomState>;

/// The entries of a map, in its order: each key with its value.
pub uninterp spec fn entries(map: IndexMap<String, Data, RandomState>) -> Seq<(Seq<char>, DataModel)>;

/// The position of the first entry with the key `key` at or after `from`.
pub open spec fn index_from(entries: Seq<(Seq<char>, DataModel)>, key: Seq<char>, from: int) -> Option<
    int,
>
    decreases entries.len() - from,
{
    if from < 0 || from >= entries.len() {
        None
    } else if entries[from].0 == key {
        Some(from)
    } else {
        index_from(entries, key, from + 1)
    }
}

/// The position of the first entry with the key `key`.
pub open spec fn index_of(entries: Seq<(Seq<char>, DataModel)>, key: Seq<char>) -> Option<int> {
    index_from(entries, key, 0)
}

/// The value under `key`.
pub open spec fn lookup(entries: Seq<(Seq<char>, DataModel)>, key: Seq<char>) -> Option<DataModel> {
    match index_of(entries, key) {
        Some(i) => Some(entries[i].1),
        None => None,
    }
}

/// The entries after `value` was put under `key`: in the place of the entry
/// with that key, where there is one, and else behind the last.
pub open spec fn inserted(
    entries: Seq<(Seq<char>, DataModel)>,
    key: Seq<char>,
    value: DataModel,
) -> Seq<(Seq<char>, DataModel)> {
    match index_of(entries, key) {
        Some(i) => entries.update(i, (key, value)),
        None => entries.push((key, value)),
    }
}

/// Whether no key occurs twice.
pub open spec fn distinct_keys(entries: Seq<(Seq<char>, DataModel)>) -> bool {
    forall|i: int, j: int| 0 <= i < j < entries.len() ==> entries[i].0 != entries[j].0
}

/// A key that no entry at or after `from` has is not found from there on.
pub proof fn lemma_index_absent(entries: Seq<(Seq<char>, DataModel)>, key: Seq<char>, from: int)
    requires
        0 <= from,
        forall|j: int| from <= j < entries.len() ==> entries[j].0 != key,
    ensures
        index_from(entries, key, from) is None,
    decreases entries.len() - from,
{
    if from < entries.len() {
        lemma_index_absent(entries, key, from + 1);
    }
}

/// `IndexMap::new`: a map without entries.
#[verifier::external_body]
pub(crate) fn new_results() -> (map: ResultMap)
    ensures
        entries(map) == Seq::<(Seq<char>, DataModel)>::empty(),
{
    IndexMap::new()
}

/// `IndexMap::insert`: where the key is in the map, its value is replaced,
/// the entry keeps its place and the earlier value is returned; where it is
/// not, the entry is added behind the last and nothing is returned.
#[verifier::external_body]
pub(crate) fn insert_result(map: &mut ResultMap, key: String, value: Data) -> (previous: Option<Data>)
    ensures
        entries(*final(map)) == inserted(entries(*old(map)), key@, value@),
        match lookup(entries(*old(map)), key@) {
            Some(earlier) => previous matches Some(p) && p@ == earlier,
            None => previous is None,
        },
{
    map.insert(key, value)
}

/// `IndexMap::get`: the value under the key, where the key is in the map.
#[verifier::external_body]
pub(crate) fn get_result<'a>(map: &'a ResultMap, key: &str) -> (value: Option<&'a Data>)
    ensures
        match lookup(entries(*map), key@) {
            Some(found) => value matches Some(v) && v@ == found,
            None => value is None,
        },
{
    map.get(key)
}

/// `IndexMap::len`: the number of entries.
#[verifier::external_body]
pub(crate) fn results_len(map: &ResultMap) -> (n: usize)
    ensures
        n == entries(*map).len(),
{
    map.len()
}

/// `IndexMap::get_index`: the entry at a position of the map's order, where
/// the position is below the number of entries.
#[verifier::external_body]
pub(crate) fn result_at<'a>(map: &'a ResultMap, index: usize) -> (entry: Option<(&'a String, &'a Data)>)
    ensures
        match entry {
            Some((key, value)) => index < entries(*map).len() && (key@, value@) == entries(
                *map,
            )[index as int],
            None => index >= entries(*map).len(),
        },
{
    map.get_index(index)
}

/// `IndexMap::clone`: a map with the same entries in the same order.
#[verifier::external_body]
pub(crate) fn clone_results(map: &ResultMap) -> (copy: ResultMap)
    ensures
        entries(copy) == entries(*map),
{
    map.clone()
}

} // verus!
