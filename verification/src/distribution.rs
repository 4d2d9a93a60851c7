//! The counting container.
//!
//! A `FrequencyDistribution` keeps, for every key it has been shown, how often
//! that key occurred, and beside that the sum of all those counts. Its view is
//! the map from keys to counts; everything its functions promise is said of
//! that map.

use crate::counts::{
    add_all, add_count, count_of, counts_of, lemma_count_le_total, lemma_lists_entries_of_set,
    lemma_total_add_count, lemma_total_empty, lemma_total_remove, lists_entries,
    sum_of_increments, total_of,
};
use crate::non_zero::{
    lemma_non_zero_keys_contains, lemma_non_zero_keys_distinct, non_zero_keys, NonZeroKeysIter,
};
use crate::std_calls::{into_pairs, size_hint_of};
use std::collections::hash_map::{Iter, Keys, RandomState};
use std::collections::HashMap;
use std::hash::{BuildHasher, Hash};
use std::ops::Index;
use vstd::prelude::*;
use vstd::std_specs::hash::{builds_valid_hashers, obeys_key_model};
use vstd::std_specs::iter::IteratorSpec;

verus! {

/// Counts of how often each key was observed, with their running total.
#[verifier::reject_recursive_types(S)]
pub struct FrequencyDistribution<K, S = RandomState> {
    hashmap: HashMap<K, usize, S>,
    sum_counts: usize,
}

impl<K, S> View for FrequencyDistribution<K, S> {
    type V = Map<K, nat>;

    /// The count of every key that has an entry. A key may have an entry with count zero.
    closed spec fn view(&self) -> Map<K, nat> {
        counts_of(self.hashmap@)
    }
}

impl<K, S> FrequencyDistribution<K, S> {
    /// What holds of every distribution between two calls: keys and hasher
    /// behave as a hash map needs them to, the entries are finitely many, and
    /// the running total is the sum of the counts.
    pub closed spec fn wf(&self) -> bool {
        &&& obeys_key_model::<K>()
        &&& builds_valid_hashers::<S>()
        &&& self@.dom().finite()
        &&& self.sum_counts as nat == total_of(self@)
    }

    /// A well-formed distribution has finitely many entries, and its total fits a `usize`.
    pub proof fn lemma_wf(&self)
        requires
            self.wf(),
        ensures
            obeys_key_model::<K>(),
            builds_valid_hashers::<S>(),
            self@.dom().finite(),
            total_of(self@) <= usize::MAX,
    {
    }
}

impl<K: Eq + Hash, S: BuildHasher> FrequencyDistribution<K, S> {
    /// An empty distribution with room for `size` keys, hashing with `state`.
    ///
    /// The size is a hint for the allocation only.
    pub fn with_capacity_and_hasher(size: usize, state: S) -> (dist: Self)
        ensures
            dist@ == Map::<K, nat>::empty(),
            total_of(dist@) == 0,
            obeys_key_model::<K>() && builds_valid_hashers::<S>() ==> dist.wf(),
    {
        let dist = FrequencyDistribution {
            hashmap: HashMap::with_capacity_and_hasher(size, state),
            sum_counts: 0,
        };
        proof {
            assert(dist@ =~= Map::<K, nat>::empty());
            lemma_total_empty::<K>();
        }
        dist
    }

    /// An empty distribution that hashes with `state`.
    pub fn with_hasher(state: S) -> (dist: Self)
        ensures
            dist@ == Map::<K, nat>::empty(),
            total_of(dist@) == 0,
            obeys_key_model::<K>() && builds_valid_hashers::<S>() ==> dist.wf(),
    {
        let dist = FrequencyDistribution { hashmap: HashMap::with_hasher(state), sum_counts: 0 };
        proof {
            assert(dist@ =~= Map::<K, nat>::empty());
            lemma_total_empty::<K>();
        }
        dist
    }

    /// Iterator over the keys that have an entry, each once, in no particular order.
    pub fn keys(&self) -> (keys: Keys<'_, K, usize>)
        requires
            self.wf(),
        ensures
            keys.decrease() is Some,
            keys.remaining().len() == self@.len(),
            keys.remaining().unref().no_duplicates(),
            keys.remaining().unref().to_set() == self@.dom(),
    {
        let keys = self.hashmap.keys();
        proof {
            let refs = keys.remaining();
            let owned = refs.unref();
            assert(self@.dom() =~= self.hashmap@.dom());
            assert forall|i: int, j: int|
                0 <= i < owned.len() && 0 <= j < owned.len() && i != j implies owned[i]
                != owned[j] by {
                assert(refs[i] != refs[j]);
            }
        }
        keys
    }

    /// Iterator over the entries, each key with its count, each once, in no
    /// particular order.
    pub fn iter(&self) -> (entries: Iter<'_, K, usize>)
        requires
            self.wf(),
        ensures
            entries.decrease() is Some,
            lists_entries(entries.remaining().unref(), self@),
    {
        let entries = self.hashmap.iter();
        proof {
            let refs = entries.remaining();
            let pairs = refs.unref();
            assert(self@.dom() =~= self.hashmap@.dom());
            assert forall|i: int| 0 <= i < pairs.len() implies self@.contains_key(
                #[trigger] pairs[i].0,
            ) && self@[pairs[i].0] == pairs[i].1 by {
                assert(self.hashmap@.contains_key(*refs[i].0));
            }
            assert forall|i: int, j: int| 0 <= i < j < pairs.len() implies pairs[i].0
                != pairs[j].0 by {
                assert(self.hashmap@.contains_key(*refs[i].0));
                assert(self.hashmap@.contains_key(*refs[j].0));
                assert(refs[i] != refs[j]);
            }
            assert forall|k: K| self@.contains_key(k) implies exists|i: int|
                0 <= i < pairs.len() && pairs[i].0 == k by {
                assert(self.hashmap@.contains_key(k));
                let e = (&k, &self.hashmap@[k]);
                assert(refs.contains(e));
                let i = choose|i: int| 0 <= i < refs.len() && refs[i] == e;
                assert(pairs[i].0 == k);
            }
        }
        entries
    }

    /// Iterator over the keys whose count is above zero.
    ///
    /// It yields exactly those keys, each once; an entry with count zero is
    /// passed over.
    pub fn iter_non_zero(&self) -> (keys: NonZeroKeysIter<'_, K>)
        requires
            self.wf(),
        ensures
            keys.wf(),
            lists_entries(keys.entries().remaining().unref(), self@),
            non_zero_keys(keys.entries().remaining()).no_duplicates(),
            forall|k: K| #[trigger]
                non_zero_keys(keys.entries().remaining()).contains(&k) <==> count_of(self@, k) > 0,
    {
        let entries = self.iter();
        proof {
            let refs = entries.remaining();
            let pairs = refs.unref();
            assert forall|i: int, j: int| 0 <= i < j < refs.len() implies (#[trigger] refs[i]).0
                != (#[trigger] refs[j]).0 by {
                assert(pairs[i].0 != pairs[j].0);
            }
            lemma_non_zero_keys_distinct(refs);
            assert forall|k: K| #[trigger]
                non_zero_keys(refs).contains(&k) <==> count_of(self@, k) > 0 by {
                lemma_non_zero_keys_contains(refs, &k);
                if non_zero_keys(refs).contains(&k) {
                    let i = choose|i: int|
                        0 <= i < refs.len() && (#[trigger] refs[i]).0 == &k && *refs[i].1 > 0;
                    assert(self@.contains_key(pairs[i].0));
                }
                if count_of(self@, k) > 0 {
                    let i = choose|i: int| 0 <= i < pairs.len() && pairs[i].0 == k;
                    assert(self@.contains_key(pairs[i].0));
                    assert(refs[i].0 == &k && *refs[i].1 > 0);
                }
            }
        }
        NonZeroKeysIter::new(entries)
    }

    /// The sum of all counts.
    pub fn sum_counts(&self) -> (total: usize)
        requires
            self.wf(),
        ensures
            total == total_of(self@),
    {
        self.sum_counts
    }

    /// The number of entries, those with count zero among them.
    pub fn len(&self) -> (n: usize)
        requires
            self.wf(),
        ensures
            n == self@.len(),
    {
        assert(self@.dom() =~= self.hashmap@.dom());
        self.hashmap.len()
    }

    /// The count of `k`; zero for a key without an entry.
    pub fn get(&self, k: &K) -> (count: usize)
        requires
            self.wf(),
        ensures
            count == count_of(self@, *k),
    {
        *Index::index(self, k)
    }

    /// Removes every entry and sets the total back to zero.
    pub fn clear(&mut self)
        requires
            old(self).wf(),
        ensures
            final(self).wf(),
            final(self)@ == Map::<K, nat>::empty(),
            final(self)@.len() == 0,
            total_of(final(self)@) == 0,
            forall|k: K| count_of(final(self)@, k) == 0,
    {
        self.hashmap.clear();
        self.sum_counts = 0;
        proof {
            assert(self@ =~= Map::<K, nat>::empty());
            lemma_total_empty::<K>();
        }
    }

    /// Counts one more occurrence of `k`.
    pub fn insert(&mut self, k: K)
        requires
            old(self).wf(),
            total_of(old(self)@) < usize::MAX,
        ensures
            final(self).wf(),
            final(self)@ == add_count(old(self)@, k, 1),
            total_of(final(self)@) == total_of(old(self)@) + 1,
    {
        self.insert_or_incr_by(k, 1);
    }

    /// Removes the entry of `k`, if there is one, and takes its count off the total.
    pub fn remove(&mut self, k: &K)
        requires
            old(self).wf(),
        ensures
            final(self).wf(),
            final(self)@ == old(self)@.remove(*k),
            total_of(final(self)@) == total_of(old(self)@) - count_of(old(self)@, *k),
    {
        proof {
            lemma_total_remove(self@, *k);
        }
        match self.hashmap.remove(k) {
            Some(count) => {
                self.sum_counts = self.sum_counts - count;
            },
            None => (),
        }
        assert(self@ =~= old(self)@.remove(*k));
    }

    /// Adds `incr` to the count of `k`, which starts at zero where `k` has no
    /// entry yet, and to the total.
    fn insert_or_incr_by(&mut self, k: K, incr: usize)
        requires
            old(self).wf(),
            total_of(old(self)@) + incr <= usize::MAX,
        ensures
            final(self).wf(),
            final(self)@ == add_count(old(self)@, k, incr as nat),
            total_of(final(self)@) == total_of(old(self)@) + incr,
    {
        proof {
            lemma_count_le_total(self@, k);
            lemma_total_add_count(self@, k, incr as nat);
        }
        let updated = match self.hashmap.get(&k) {
            Some(count) => *count + incr,
            None => incr,
        };
        self.hashmap.insert(k, updated);
        self.sum_counts = self.sum_counts + incr;
        assert(self@ =~= add_count(old(self)@, k, incr as nat));
    }

    /// Adds every pair that `iter` yields, in the order in which they come:
    /// each increment goes on top of what its key has by then.
    pub fn extend<T: Iterator<Item = (K, usize)>>(&mut self, iter: T)
        requires
            old(self).wf(),
            iter.obeys_prophetic_iter_laws(),
            iter.decrease() is Some,
            total_of(old(self)@) + sum_of_increments(iter.remaining()) <= usize::MAX,
        ensures
            final(self).wf(),
            final(self)@ == add_all(old(self)@, iter.remaining()),
            total_of(final(self)@) == total_of(old(self)@) + sum_of_increments(iter.remaining()),
    {
        let mut rest = iter;
        loop
            invariant
                self.wf(),
                rest.obeys_prophetic_iter_laws(),
                rest.decrease() is Some,
                total_of(self@) + sum_of_increments(rest.remaining()) == total_of(old(self)@)
                    + sum_of_increments(iter.remaining()),
                total_of(old(self)@) + sum_of_increments(iter.remaining()) <= usize::MAX,
                add_all(self@, rest.remaining()) == add_all(old(self)@, iter.remaining()),
            ensures
                self.wf(),
                self@ == add_all(old(self)@, iter.remaining()),
                total_of(self@) == total_of(old(self)@) + sum_of_increments(iter.remaining()),
            decreases rest.decrease()->0,
        {
            let ghost pending = rest.remaining();
            match rest.next() {
                Some((k, freq)) => {
                    assert(pending[0] == (k, freq));
                    assert(rest.remaining() == pending.drop_first());
                    self.insert_or_incr_by(k, freq);
                },
                None => {
                    break ;
                },
            }
        }
    }

    /// Hands out all entries, each key with its count, each once, in no
    /// particular order. The distribution is used up.
    pub fn into_iter(self) -> (pairs: std::vec::IntoIter<(K, usize)>)
        requires
            self.wf(),
        ensures
            pairs.decrease() is Some,
            lists_entries(pairs.remaining(), self@),
    {
        proof {
            assert(self@.dom() =~= self.hashmap@.dom());
            assert(self.hashmap@.dom().finite());
        }
        let ghost stored = self.hashmap@;
        let pairs = into_pairs(self.hashmap);
        proof {
            lemma_lists_entries_of_set(pairs@, stored);
        }
        pairs.into_iter()
    }
}

impl<K: Eq + Hash, S: BuildHasher + Default> FrequencyDistribution<K, S> {
    /// An empty distribution.
    pub fn new() -> (dist: Self)
        ensures
            dist@ == Map::<K, nat>::empty(),
            total_of(dist@) == 0,
            obeys_key_model::<K>() && builds_valid_hashers::<S>() ==> dist.wf(),
    {
        FrequencyDistribution::with_hasher(S::default())
    }

    /// An empty distribution with room for `size` keys.
    ///
    /// The size is a hint for the allocation only.
    pub fn with_capacity(size: usize) -> (dist: Self)
        ensures
            dist@ == Map::<K, nat>::empty(),
            total_of(dist@) == 0,
            obeys_key_model::<K>() && builds_valid_hashers::<S>() ==> dist.wf(),
    {
        FrequencyDistribution::with_capacity_and_hasher(size, S::default())
    }

    /// The distribution that results from adding the pairs of `iter`, in their
    /// order, to an empty one.
    ///
    /// Room is set aside for as many keys as the iterator says it has at most,
    /// or, where it names no upper bound, at least.
    pub fn from_iter<T: Iterator<Item = (K, usize)>>(iter: T) -> (dist: Self)
        requires
            obeys_key_model::<K>(),
            builds_valid_hashers::<S>(),
            iter.obeys_prophetic_iter_laws(),
            iter.decrease() is Some,
            sum_of_increments(iter.remaining()) <= usize::MAX,
        ensures
            dist.wf(),
            dist@ == add_all(Map::<K, nat>::empty(), iter.remaining()),
            total_of(dist@) == sum_of_increments(iter.remaining()),
    {
        let hint = size_hint_of(&iter);
        let mut fdist = FrequencyDistribution::with_capacity_and_hasher(
            capacity_for(hint.0, hint.1),
            S::default(),
        );
        fdist.extend(iter);
        fdist
    }
}

/// The capacity to start with, given the bounds that an iterator names: the upper
/// bound where it names one, else the lower.
pub fn capacity_for(lower: usize, upper: Option<usize>) -> (capacity: usize)
    ensures
        capacity == match upper {
            Some(most) => most,
            None => lower,
        },
{
    if upper.is_some() {
        upper.unwrap()
    } else {
        lower
    }
}

impl<K: Eq + Hash, S: BuildHasher + Default> Default for FrequencyDistribution<K, S> {
    /// An empty distribution.
    fn default() -> (dist: Self)
        ensures
            dist@ == Map::<K, nat>::empty(),
            total_of(dist@) == 0,
            obeys_key_model::<K>() && builds_valid_hashers::<S>() ==> dist.wf(),
    {
        FrequencyDistribution::new()
    }
}

impl<'a, K: Eq + Hash, S: BuildHasher> Index<&'a K> for FrequencyDistribution<K, S> {
    type Output = usize;

    /// The count of `index`; zero for a key without an entry.
    fn index(&self, index: &'a K) -> (count: &usize)
        ensures
            *count == count_of(self@, *index),
    {
        match self.hashmap.get(index) {
            Some(count) => count,
            None => &0,
        }
    }
}

impl<'a, K: Eq + Hash, S: BuildHasher> vstd::std_specs::core::IndexSpecImpl<&'a K>
    for FrequencyDistribution<K, S> {
    /// Indexing asks for a well-formed distribution, and for nothing of the key.
    open spec fn index_req(&self, index: &&'a K) -> bool {
        self.wf()
    }
}

} // verus!
