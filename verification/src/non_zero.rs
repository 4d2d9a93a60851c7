//! Iteration over the keys that have been seen at least once.
//!
//! The iterator walks the entries of a distribution and passes over those
//! whose count is zero. It filters as it goes and keeps no collection of
//! its own.

use std::collections::hash_map::Iter;
use vstd::prelude::*;
use vstd::std_specs::iter::IteratorSpec;

verus! {

/// The keys of the entries whose count is not zero, in the order of `entries`.
pub open spec fn non_zero_keys<'a, K>(entries: Seq<(&'a K, &'a usize)>) -> Seq<&'a K>
    decreases entries.len(),
{
    if entries.len() == 0 {
        Seq::empty()
    } else if *entries[0].1 > 0 {
        seq![entries[0].0] + non_zero_keys(entries.drop_first())
    } else {
        non_zero_keys(entries.drop_first())
    }
}

/// A key is among the non-zero keys exactly if some entry holds it with a count above zero.
pub proof fn lemma_non_zero_keys_contains<'a, K>(entries: Seq<(&'a K, &'a usize)>, key: &'a K)
    ensures
        non_zero_keys(entries).contains(key) <==> exists|i: int|
            0 <= i < entries.len() && (#[trigger] entries[i]).0 == key && *entries[i].1 > 0,
    decreases entries.len(),
{
    if entries.len() > 0 {
        let rest = entries.drop_first();
        let keys = non_zero_keys(entries);
        lemma_non_zero_keys_contains(rest, key);
        if non_zero_keys(rest).contains(key) {
            let i = choose|i: int|
                0 <= i < rest.len() && (#[trigger] rest[i]).0 == key && *rest[i].1 > 0;
            assert(entries[i + 1] == rest[i]);
            let j = choose|j: int|
                0 <= j < non_zero_keys(rest).len() && non_zero_keys(rest)[j] == key;
            if *entries[0].1 > 0 {
                assert(keys[j + 1] == key);
            }
        }
        if *entries[0].1 > 0 && entries[0].0 == key {
            assert(keys[0] == key);
        }
        if keys.contains(key) {
            let j = choose|j: int| 0 <= j < keys.len() && keys[j] == key;
            if *entries[0].1 > 0 {
                if j > 0 {
                    assert(non_zero_keys(rest)[j - 1] == key);
                }
            }
        }
        if exists|i: int|
            0 <= i < entries.len() && (#[trigger] entries[i]).0 == key && *entries[i].1 > 0 {
            let i = choose|i: int|
                0 <= i < entries.len() && (#[trigger] entries[i]).0 == key && *entries[i].1 > 0;
            if i > 0 {
                assert(rest[i - 1] == entries[i]);
            }
        }
    }
}

/// Where no key stands in two entries, none stands twice among the non-zero keys.
pub proof fn lemma_non_zero_keys_distinct<'a, K>(entries: Seq<(&'a K, &'a usize)>)
    requires
        forall|i: int, j: int|
            0 <= i < j < entries.len() ==> (#[trigger] entries[i]).0 != (#[trigger] entries[j]).0,
    ensures
        non_zero_keys(entries).no_duplicates(),
    decreases entries.len(),
{
    if entries.len() > 0 {
        let rest = entries.drop_first();
        assert forall|i: int, j: int| 0 <= i < j < rest.len() implies (#[trigger] rest[i]).0
            != (#[trigger] rest[j]).0 by {
            assert(rest[i] == entries[i + 1]);
            assert(rest[j] == entries[j + 1]);
        }
        lemma_non_zero_keys_distinct(rest);
        if *entries[0].1 > 0 {
            let head = entries[0].0;
            lemma_non_zero_keys_contains(rest, head);
            if non_zero_keys(rest).contains(head) {
                let i = choose|i: int|
                    0 <= i < rest.len() && (#[trigger] rest[i]).0 == head && *rest[i].1 > 0;
                assert(rest[i] == entries[i + 1]);
            }
            let keys = non_zero_keys(entries);
            assert forall|i: int, j: int|
                0 <= i < keys.len() && 0 <= j < keys.len() && i != j implies keys[i] != keys[j] by {
                if i > 0 && j > 0 {
                    assert(keys[i] == non_zero_keys(rest)[i - 1]);
                    assert(keys[j] == non_zero_keys(rest)[j - 1]);
                } else if i == 0 {
                    assert(keys[j] == non_zero_keys(rest)[j - 1]);
                } else {
                    assert(keys[i] == non_zero_keys(rest)[i - 1]);
                }
            }
        }
    }
}

/// One step of an iterator that keeps the iterator laws: the head of what is left, or `None`.
fn advance<I: Iterator>(iter: &mut I) -> (item: Option<I::Item>)
    requires
        (*old(iter)).obeys_prophetic_iter_laws(),
        (*old(iter)).decrease() is Some,
    ensures
        (*final(iter)).obeys_prophetic_iter_laws(),
        (*final(iter)).decrease() is Some,
        (*old(iter)).remaining().len() > 0 ==> {
            &&& item == Some((*old(iter)).remaining()[0])
            &&& (*final(iter)).remaining() == (*old(iter)).remaining().drop_first()
            &&& decreases_to!((*old(iter)).decrease()->0 => (*final(iter)).decrease()->0)
        },
        (*old(iter)).remaining().len() == 0 ==> {
            &&& item is None
            &&& (*final(iter)).remaining() == (*old(iter)).remaining()
        },
{
    iter.next()
}

/// Iterator over the keys whose count is not zero.
pub struct NonZeroKeysIter<'a, K: 'a> {
    iter: Iter<'a, K, usize>,
}

impl<'a, K: 'a> NonZeroKeysIter<'a, K> {
    /// The iterator over all entries that this one filters.
    pub closed spec fn entries(&self) -> Iter<'a, K, usize> {
        self.iter
    }

    /// The underlying iterator comes to an end, and so does this one.
    pub open spec fn wf(&self) -> bool {
        self.entries().decrease() is Some
    }

    /// Filters `iter`.
    pub(crate) fn new(iter: Iter<'a, K, usize>) -> (keys: Self)
        ensures
            keys.entries() == iter,
    {
        NonZeroKeysIter { iter }
    }

    /// The next key with a count above zero, or `None` when no such key is left.
    ///
    /// The keys come in the order of the underlying entries; the entries up to
    /// and with the one returned are used up.
    pub fn next(&mut self) -> (key: Option<&'a K>)
        requires
            old(self).wf(),
        ensures
            final(self).wf(),
            match key {
                Some(k) => {
                    &&& non_zero_keys(old(self).entries().remaining()).len() > 0
                    &&& k == non_zero_keys(old(self).entries().remaining())[0]
                    &&& non_zero_keys(final(self).entries().remaining()) == non_zero_keys(
                        old(self).entries().remaining(),
                    ).drop_first()
                },
                None => {
                    &&& non_zero_keys(old(self).entries().remaining()).len() == 0
                    &&& final(self).entries().remaining().len() == 0
                },
            },
    {
        loop
            invariant
                self.iter.decrease() is Some,
                non_zero_keys(self.iter.remaining()) == non_zero_keys(old(self).iter.remaining()),
            decreases self.iter.decrease()->0,
        {
            let ghost pending = self.iter.remaining();
            match advance(&mut self.iter) {
                Some((k, c)) => {
                    assert(pending[0] == (k, c));
                    if *c > 0 {
                        assert(non_zero_keys(pending) == seq![k] + non_zero_keys(
                            pending.drop_first(),
                        ));
                        assert(non_zero_keys(pending).drop_first() == non_zero_keys(
                            pending.drop_first(),
                        ));
                        return Some(k);
                    }
                },
                None => {
                    return None;
                },
            }
        }
    }
}

} // verus!
