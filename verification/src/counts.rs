//! The mathematical model of a distribution: a finite map from keys to counts.
//!
//! A key may be present with a count of zero; it then still counts as an
//! entry of the map, but contributes nothing to the total.

use vstd::multiset::Multiset;
use vstd::prelude::*;
use vstd::relations::injective_on;
use vstd::set_lib::lemma_map_size;

verus! {

/// The counts that a map of machine integers stands for.
pub open spec fn counts_of<K>(stored: Map<K, usize>) -> Map<K, nat> {
    stored.map_values(|c: usize| c as nat)
}

/// The count recorded for `key`: its entry in `counts`, or zero where it has none.
pub open spec fn count_of<K>(counts: Map<K, nat>, key: K) -> nat {
    if counts.contains_key(key) {
        counts[key]
    } else {
        0
    }
}

/// The bag in which every key occurs as often as `counts` says.
pub open spec fn as_bag<K>(counts: Map<K, nat>) -> Multiset<K> {
    Multiset::from_map(counts)
}

/// The sum of all counts: the size of the bag that `counts` describes.
pub open spec fn total_of<K>(counts: Map<K, nat>) -> nat {
    as_bag(counts).len()
}

/// `counts` after `incr` more observations of `key`.
pub open spec fn add_count<K>(counts: Map<K, nat>, key: K, incr: nat) -> Map<K, nat> {
    counts.insert(key, count_of(counts, key) + incr)
}

/// `counts` after the pairs of `pairs` have been added one by one, first to last.
pub open spec fn add_all<K>(counts: Map<K, nat>, pairs: Seq<(K, usize)>) -> Map<K, nat>
    decreases pairs.len(),
{
    if pairs.len() == 0 {
        counts
    } else {
        add_all(add_count(counts, pairs[0].0, pairs[0].1 as nat), pairs.drop_first())
    }
}

/// The sum of the increments of all pairs.
pub open spec fn sum_of_increments<K>(pairs: Seq<(K, usize)>) -> nat
    decreases pairs.len(),
{
    if pairs.len() == 0 {
        0
    } else {
        pairs[0].1 as nat + sum_of_increments(pairs.drop_first())
    }
}

/// The sum of the increments of the pairs whose key is `key`.
pub open spec fn increments_for<K>(pairs: Seq<(K, usize)>, key: K) -> nat
    decreases pairs.len(),
{
    if pairs.len() == 0 {
        0
    } else if pairs[0].0 == key {
        pairs[0].1 as nat + increments_for(pairs.drop_first(), key)
    } else {
        increments_for(pairs.drop_first(), key)
    }
}

/// Whether `pairs` lists every entry of `counts` exactly once, in whatever order.
pub open spec fn lists_entries<K>(pairs: Seq<(K, usize)>, counts: Map<K, nat>) -> bool {
    &&& pairs.len() == counts.len()
    &&& forall|i: int|
        0 <= i < pairs.len() ==> counts.contains_key(#[trigger] pairs[i].0) && counts[pairs[i].0]
            == pairs[i].1
    &&& forall|i: int, j: int| 0 <= i < j < pairs.len() ==> pairs[i].0 != pairs[j].0
    &&& forall|k: K|
        counts.contains_key(k) ==> exists|i: int| 0 <= i < pairs.len() && pairs[i].0 == k
}

/// The bag that holds `key` exactly `n` times has size `n`.
proof fn lemma_repeated_key_len<K>(key: K, n: nat)
    ensures
        as_bag(Map::<K, nat>::empty().insert(key, n)).len() == n,
    decreases n,
{
    let bag = as_bag(Map::<K, nat>::empty().insert(key, n));
    if n == 0 {
        assert(bag =~= Multiset::empty());
    } else {
        let smaller = as_bag(Map::<K, nat>::empty().insert(key, (n - 1) as nat));
        lemma_repeated_key_len(key, (n - 1) as nat);
        assert(bag =~= smaller.insert(key));
    }
}

/// No counts, no observations.
pub proof fn lemma_total_empty<K>()
    ensures
        total_of(Map::<K, nat>::empty()) == 0,
{
    assert(as_bag(Map::<K, nat>::empty()) =~= Multiset::empty());
}

/// A single count is never more than the total.
pub proof fn lemma_count_le_total<K>(counts: Map<K, nat>, key: K)
    requires
        counts.dom().finite(),
    ensures
        count_of(counts, key) <= total_of(counts),
{
    assert(as_bag(counts).count(key) == count_of(counts, key));
}

/// Adding `incr` observations of one key adds `incr` to the total.
pub proof fn lemma_total_add_count<K>(counts: Map<K, nat>, key: K, incr: nat)
    requires
        counts.dom().finite(),
    ensures
        total_of(add_count(counts, key, incr)) == total_of(counts) + incr,
{
    let extra = as_bag(Map::<K, nat>::empty().insert(key, incr));
    lemma_repeated_key_len(key, incr);
    assert(as_bag(add_count(counts, key, incr)) =~= as_bag(counts).add(extra));
}

/// Removing a key takes its count off the total.
pub proof fn lemma_total_remove<K>(counts: Map<K, nat>, key: K)
    requires
        counts.dom().finite(),
    ensures
        total_of(counts.remove(key)) + count_of(counts, key) == total_of(counts),
{
    let gone = as_bag(Map::<K, nat>::empty().insert(key, count_of(counts, key)));
    lemma_repeated_key_len(key, count_of(counts, key));
    assert(as_bag(counts) =~= as_bag(counts.remove(key)).add(gone));
}

/// Adding pairs adds the sum of their increments to the total.
pub proof fn lemma_total_add_all<K>(counts: Map<K, nat>, pairs: Seq<(K, usize)>)
    requires
        counts.dom().finite(),
    ensures
        total_of(add_all(counts, pairs)) == total_of(counts) + sum_of_increments(pairs),
    decreases pairs.len(),
{
    if pairs.len() > 0 {
        let next = add_count(counts, pairs[0].0, pairs[0].1 as nat);
        lemma_total_add_count(counts, pairs[0].0, pairs[0].1 as nat);
        lemma_total_add_all(next, pairs.drop_first());
    }
}

/// Adding pairs raises the count of a key by the increments given for that key.
pub proof fn lemma_count_add_all<K>(counts: Map<K, nat>, pairs: Seq<(K, usize)>, key: K)
    ensures
        count_of(add_all(counts, pairs), key) == count_of(counts, key) + increments_for(pairs, key),
    decreases pairs.len(),
{
    if pairs.len() > 0 {
        let next = add_count(counts, pairs[0].0, pairs[0].1 as nat);
        lemma_count_add_all(next, pairs.drop_first(), key);
    }
}

/// After adding pairs, the keys present are those present before and those of the pairs.
pub proof fn lemma_keys_add_all<K>(counts: Map<K, nat>, pairs: Seq<(K, usize)>, key: K)
    ensures
        add_all(counts, pairs).contains_key(key) <==> counts.contains_key(key) || exists|i: int|
            0 <= i < pairs.len() && pairs[i].0 == key,
    decreases pairs.len(),
{
    if pairs.len() > 0 {
        let next = add_count(counts, pairs[0].0, pairs[0].1 as nat);
        let rest = pairs.drop_first();
        lemma_keys_add_all(next, rest, key);
        if exists|i: int| 0 <= i < rest.len() && rest[i].0 == key {
            let i = choose|i: int| 0 <= i < rest.len() && rest[i].0 == key;
            assert(pairs[i + 1].0 == key);
        }
        if exists|i: int| 0 <= i < pairs.len() && pairs[i].0 == key {
            let i = choose|i: int| 0 <= i < pairs.len() && pairs[i].0 == key;
            if i > 0 {
                assert(rest[i - 1].0 == key);
            }
        }
    }
}

/// No pair for a key, no increment for it.
pub proof fn lemma_increments_for_absent<K>(pairs: Seq<(K, usize)>, key: K)
    requires
        forall|i: int| 0 <= i < pairs.len() ==> (#[trigger] pairs[i]).0 != key,
    ensures
        increments_for(pairs, key) == 0,
    decreases pairs.len(),
{
    if pairs.len() > 0 {
        let rest = pairs.drop_first();
        assert forall|i: int| 0 <= i < rest.len() implies (#[trigger] rest[i]).0 != key by {
            assert(rest[i] == pairs[i + 1]);
        }
        lemma_increments_for_absent(rest, key);
    }
}

/// A key that stands in one pair only gets that pair's increment.
pub proof fn lemma_increments_for_single<K>(pairs: Seq<(K, usize)>, at: int)
    requires
        0 <= at < pairs.len(),
        forall|i: int| 0 <= i < pairs.len() && i != at ==> (#[trigger] pairs[i]).0 != pairs[at].0,
    ensures
        increments_for(pairs, pairs[at].0) == pairs[at].1,
    decreases pairs.len(),
{
    let key = pairs[at].0;
    let rest = pairs.drop_first();
    if at == 0 {
        assert forall|i: int| 0 <= i < rest.len() implies (#[trigger] rest[i]).0 != key by {
            assert(rest[i] == pairs[i + 1]);
        }
        lemma_increments_for_absent(rest, key);
    } else {
        assert(rest[at - 1] == pairs[at]);
        assert forall|i: int| 0 <= i < rest.len() && i != at - 1 implies (#[trigger] rest[i]).0
            != rest[at - 1].0 by {
            assert(rest[i] == pairs[i + 1]);
        }
        lemma_increments_for_single(rest, at - 1);
    }
}

/// Pairs that make up the set of entries of a stored map, and are as many as
/// its keys, list every entry exactly once.
pub proof fn lemma_lists_entries_of_set<K>(pairs: Seq<(K, usize)>, stored: Map<K, usize>)
    requires
        stored.dom().finite(),
        pairs.len() == stored.len(),
        pairs.to_set() == stored.kv_pairs(),
    ensures
        lists_entries(pairs, counts_of(stored)),
{
    let counts = counts_of(stored);
    let entry = |k: K| (k, stored[k]);
    assert(counts.dom() =~= stored.dom());
    assert(stored.dom().map(entry) =~= stored.kv_pairs()) by {
        assert forall|kv: (K, usize)| stored.kv_pairs().contains(kv) implies stored.dom().map(
            entry,
        ).contains(kv) by {
            assert(stored.dom().contains(kv.0) && entry(kv.0) == kv);
        }
    }
    assert(injective_on(entry, stored.dom()));
    lemma_map_size(stored.dom(), stored.kv_pairs(), entry);
    pairs.lemma_no_dup_set_cardinality();
    assert forall|i: int| 0 <= i < pairs.len() implies counts.contains_key(#[trigger] pairs[i].0)
        && counts[pairs[i].0] == pairs[i].1 by {
        assert(pairs.to_set().contains(pairs[i]));
    }
    assert forall|i: int, j: int| 0 <= i < j < pairs.len() implies pairs[i].0 != pairs[j].0 by {
        assert(pairs.to_set().contains(pairs[i]));
        assert(pairs.to_set().contains(pairs[j]));
    }
    assert forall|k: K| counts.contains_key(k) implies exists|i: int|
        0 <= i < pairs.len() && pairs[i].0 == k by {
        assert(stored.kv_pairs().contains((k, stored[k])));
        assert(pairs.to_set().contains((k, stored[k])));
        let i = choose|i: int| 0 <= i < pairs.len() && pairs[i] == (k, stored[k]);
        assert(pairs[i].0 == k);
    }
}

} // verus!
