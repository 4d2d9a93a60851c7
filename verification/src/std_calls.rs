//! What this crate takes on trust about the standard library.
//!
//! Nothing in this file is proved. Each item names the function of `std` that
//! it speaks of and says what is claimed of it.

use std::collections::HashMap;
use vstd::prelude::*;
use vstd::std_specs::hash::{builds_valid_hashers, obeys_key_model};

verus! {

/// `HashMap::with_hasher`: the map it returns holds no entry.
///
/// Nothing is said of the hasher that the map then uses.
pub assume_specification<K, V, S>[ HashMap::<K, V, S>::with_hasher ](hash_builder: S) -> (map:
    HashMap<K, V, S>)
    ensures
        map@ == (Map::<K, V>::empty()),
;

/// `HashMap::with_capacity_and_hasher`: the map it returns holds no entry,
/// whatever capacity was asked for.
///
/// Nothing is said of the room the map has set aside. A capacity that no
/// allocation can hold ends the program, as running out of memory does;
/// neither is part of what is modelled here.
pub assume_specification<K, V, S>[ HashMap::<K, V, S>::with_capacity_and_hasher ](
    capacity: usize,
    hasher: S,
) -> (map: HashMap<K, V, S>)
    ensures
        map@ == (Map::<K, V>::empty()),
;

/// `Iterator::size_hint`: bounds on how many items are still to come.
///
/// An iterator is free to name bounds that do not hold, so nothing is claimed
/// of them.
#[verifier::external_body]
pub(crate) fn size_hint_of<I: Iterator>(iter: &I) -> (hint: (usize, Option<usize>)) {
    iter.size_hint()
}

/// `Vec::from_iter` on a map, which walks the map by `HashMap::into_iter`.
///
/// The consuming iterator of a map moves every key-value pair out of it, each
/// once, in an order of its own choosing. So for keys and hashers that behave
/// as a hash map needs, the vector holds exactly the pairs of the map, as many
/// as the map has entries.
#[verifier::external_body]
pub(crate) fn into_pairs<K, S>(map: HashMap<K, usize, S>) -> (pairs: Vec<(K, usize)>)
    ensures
        obeys_key_model::<K>() && builds_valid_hashers::<S>() ==> {
            &&& pairs@.len() == map@.len()
            &&& pairs@.to_set() == map@.kv_pairs()
        },
{
    Vec::from_iter(map)
}

} // verus!
