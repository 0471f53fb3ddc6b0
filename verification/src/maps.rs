//! The hashed sets and maps of the toolchain, those of the `ahash` crate,
//! keyed by plain integers: line numbers and symbol indices.
//!
//! Nothing is verified inside them. Each function below states what is
//! assumed of the one method that it calls; `AHashSet` and `AHashMap` hand
//! these methods on to std's `HashSet` and `HashMap`.

use ahash::{AHashMap, AHashSet};
use vstd::prelude::*;

verus! {

#[verifier::external_type_specification]
#[verifier::external_body]
#[verifier::reject_recursive_types(T)]
#[verifier::reject_recursive_types(S)]
pub struct ExAHashSet<T, S>(AHashSet<T, S>);

#[verifier::external_type_specification]
#[verifier::external_body]
#[verifier::reject_recursive_types(K)]
#[verifier::reject_recursive_types(V)]
#[verifier::reject_recursive_types(S)]
pub struct ExAHashMap<K, V, S>(AHashMap<K, V, S>);

#[verifier::external_type_specification]
#[verifier::external_body]
pub struct ExRandomState(ahash::RandomState);

/// The numbers that a set holds.
pub uninterp spec fn held(set: AHashSet<u32>) -> Set<u32>;

/// The address that a map gives to each of its keys.
pub uninterp spec fn addresses(map: AHashMap<u32, u16>) -> Map<u32, u16>;

/// The words that a map gives to each of its keys.
pub uninterp spec fn blocks(map: AHashMap<u32, Vec<u16>>) -> Map<u32, Seq<u16>>;

/// `AHashSet::new`: a set that holds nothing.
#[verifier::external_body]
pub(crate) fn set_new() -> (set: AHashSet<u32>)
    ensures
        held(set) == Set::<u32>::empty(),
{
    AHashSet::new()
}

/// `HashSet::insert`: the set holds the value from then on, and what it
/// held before.
#[verifier::external_body]
pub(crate) fn set_insert(set: &mut AHashSet<u32>, value: u32)
    ensures
        held(*final(set)) == held(*old(set)).insert(value),
{
    set.insert(value);
}

/// `HashSet::contains`: whether the set holds the value.
#[verifier::external_body]
pub(crate) fn set_contains(set: &AHashSet<u32>, value: u32) -> (b: bool)
    ensures
        b == held(*set).contains(value),
{
    set.contains(&value)
}

/// `AHashMap::new`: a map without keys.
#[verifier::external_body]
pub(crate) fn addresses_new() -> (table: AHashMap<u32, u16>)
    ensures
        addresses(table) == (Map::<u32, u16>::empty()),
{
    AHashMap::new()
}

/// `AHashMap::insert`: the key has the value from then on; the other keys
/// keep theirs.
#[verifier::external_body]
pub(crate) fn addresses_insert(map: &mut AHashMap<u32, u16>, key: u32, value: u16)
    ensures
        addresses(*final(map)) == addresses(*old(map)).insert(key, value),
{
    map.insert(key, value);
}

/// `AHashMap::get`: the value of the key, if the map has the key.
#[verifier::external_body]
pub(crate) fn addresses_get(map: &AHashMap<u32, u16>, key: u32) -> (r: Option<u16>)
    ensures
        r is Some <==> addresses(*map).dom().contains(key),
        r is Some ==> r->0 == addresses(*map)[key],
{
    map.get(&key).copied()
}

/// `AHashMap::new`: a map without keys.
#[verifier::external_body]
pub(crate) fn blocks_new() -> (table: AHashMap<u32, Vec<u16>>)
    ensures
        blocks(table) == (Map::<u32, Seq<u16>>::empty()),
{
    AHashMap::new()
}

/// `AHashMap::insert`: the key has the words from then on; the other keys
/// keep theirs.
#[verifier::external_body]
pub(crate) fn blocks_insert(map: &mut AHashMap<u32, Vec<u16>>, key: u32, words: Vec<u16>)
    ensures
        blocks(*final(map)) == blocks(*old(map)).insert(key, words@),
{
    map.insert(key, words);
}

/// `HashMap::iter`, with each entry copied out: every key of the map once,
/// with its words, in the order in which the map happens to walk them.
#[verifier::external_body]
pub(crate) fn blocks_entries(map: &AHashMap<u32, Vec<u16>>) -> (entries: Vec<(u32, Vec<u16>)>)
    ensures
        forall|i: int|
            0 <= i < entries@.len() ==> blocks(*map).contains_pair(
                (#[trigger] entries@[i]).0,
                entries@[i].1@,
            ),
        forall|k: u32|
            blocks(*map).dom().contains(k) ==> exists|i: int|
                0 <= i < entries@.len() && (#[trigger] entries@[i]).0 == k,
        forall|i: int, j: int|
            0 <= i < j < entries@.len() ==> (#[trigger] entries@[i]).0 != (#[trigger] entries@[j]).0,
{
    map.iter().map(|(key, words)| (*key, words.clone())).collect()
}

} // verus!
