//! Laws of the counting model.
//!
//! The functions of a distribution say what they do to its view. The laws
//! below are about those views: what follows when the functions are called
//! one after another, in any number and order.

use crate::counts::{
    add_all, add_count, count_of, increments_for, lemma_count_add_all,
    lemma_increments_for_absent, lemma_increments_for_single, lemma_keys_add_all,
    lemma_total_add_all, lemma_total_add_count, lemma_total_empty, lemma_total_remove,
    lists_entries, sum_of_increments, total_of,
};
use vstd::prelude::*;

verus! {

/// One change to a distribution, as its view sees it.
pub enum Step<K> {
    /// One more occurrence of a key: `insert`.
    Observe(K),
    /// A number of occurrences of a key at once: one pair of `extend`.
    Add(K, usize),
    /// The entry of a key is taken out: `remove`.
    Forget(K),
    /// All entries are taken out: `clear`.
    Clear,
}

/// The counts after one step.
pub open spec fn after<K>(counts: Map<K, nat>, step: Step<K>) -> Map<K, nat> {
    match step {
        Step::Observe(key) => add_count(counts, key, 1),
        Step::Add(key, incr) => add_count(counts, key, incr as nat),
        Step::Forget(key) => counts.remove(key),
        Step::Clear => Map::empty(),
    }
}

/// The counts after a run of steps, first to last.
pub open spec fn after_all<K>(counts: Map<K, nat>, steps: Seq<Step<K>>) -> Map<K, nat>
    decreases steps.len(),
{
    if steps.len() == 0 {
        counts
    } else {
        after_all(after(counts, steps[0]), steps.drop_first())
    }
}

/// The running total after one step, kept the way a distribution keeps it:
/// what comes in is added, the count of a key that goes is taken off, and a
/// clearing starts again from zero.
pub open spec fn tally_after<K>(tally: int, counts: Map<K, nat>, step: Step<K>) -> int {
    match step {
        Step::Observe(_) => tally + 1,
        Step::Add(_, incr) => tally + incr,
        Step::Forget(key) => tally - count_of(counts, key),
        Step::Clear => 0,
    }
}

/// The running total after a run of steps.
pub open spec fn tally_after_all<K>(tally: int, counts: Map<K, nat>, steps: Seq<Step<K>>) -> int
    decreases steps.len(),
{
    if steps.len() == 0 {
        tally
    } else {
        tally_after_all(
            tally_after(tally, counts, steps[0]),
            after(counts, steps[0]),
            steps.drop_first(),
        )
    }
}

/// Whether a step brings in occurrences of `key`.
pub open spec fn brings_in<K>(step: Step<K>, key: K) -> bool {
    match step {
        Step::Observe(k) => k == key,
        Step::Add(k, _) => k == key,
        Step::Forget(_) => false,
        Step::Clear => false,
    }
}

/// The running total stays the sum of the counts, whatever is done and in
/// whatever order: it starts as the sum, and every step changes both alike.
pub proof fn lemma_tally_is_total<K>(counts: Map<K, nat>, steps: Seq<Step<K>>)
    requires
        counts.dom().finite(),
    ensures
        tally_after_all(total_of(counts) as int, counts, steps) == total_of(
            after_all(counts, steps),
        ),
    decreases steps.len(),
{
    if steps.len() > 0 {
        match steps[0] {
            Step::Observe(key) => {
                lemma_total_add_count(counts, key, 1);
            },
            Step::Add(key, incr) => {
                lemma_total_add_count(counts, key, incr as nat);
            },
            Step::Forget(key) => {
                lemma_total_remove(counts, key);
            },
            Step::Clear => {
                lemma_total_empty::<K>();
            },
        }
        lemma_tally_is_total(after(counts, steps[0]), steps.drop_first());
    }
}

/// Started empty and at zero, the running total is the sum of the counts
/// after any run of steps.
pub proof fn lemma_tally_from_empty<K>(steps: Seq<Step<K>>)
    ensures
        tally_after_all(0, Map::<K, nat>::empty(), steps) == total_of(
            after_all(Map::<K, nat>::empty(), steps),
        ),
{
    lemma_total_empty::<K>();
    lemma_tally_is_total(Map::<K, nat>::empty(), steps);
}

/// A key with count zero that no step brings in has count zero after the run.
pub proof fn lemma_never_seen_counts_zero<K>(counts: Map<K, nat>, steps: Seq<Step<K>>, key: K)
    requires
        count_of(counts, key) == 0,
        forall|i: int| 0 <= i < steps.len() ==> !brings_in(#[trigger] steps[i], key),
    ensures
        count_of(after_all(counts, steps), key) == 0,
    decreases steps.len(),
{
    if steps.len() > 0 {
        let rest = steps.drop_first();
        assert(!brings_in(steps[0], key));
        assert forall|i: int| 0 <= i < rest.len() implies !brings_in(#[trigger] rest[i], key) by {
            assert(rest[i] == steps[i + 1]);
        }
        lemma_never_seen_counts_zero(after(counts, steps[0]), rest, key);
    }
}

/// A key that was never brought into an empty distribution has count zero.
pub proof fn lemma_never_inserted_counts_zero<K>(steps: Seq<Step<K>>, key: K)
    requires
        forall|i: int| 0 <= i < steps.len() ==> !brings_in(#[trigger] steps[i], key),
    ensures
        count_of(after_all(Map::<K, nat>::empty(), steps), key) == 0,
{
    lemma_never_seen_counts_zero(Map::<K, nat>::empty(), steps, key);
}

/// Removing a key a second time changes nothing: the key is gone after the
/// first time, its count is zero, and the entries and the total stay as they
/// were.
pub proof fn lemma_remove_twice<K>(counts: Map<K, nat>, key: K)
    ensures
        count_of(counts.remove(key), key) == 0,
        counts.remove(key).remove(key) == counts.remove(key),
        total_of(counts.remove(key).remove(key)) == total_of(counts.remove(key)),
{
    assert(counts.remove(key).remove(key) =~= counts.remove(key));
}

/// Removing a key that has no entry changes nothing.
pub proof fn lemma_remove_absent<K>(counts: Map<K, nat>, key: K)
    requires
        !counts.contains_key(key),
    ensures
        counts.remove(key) == counts,
{
    assert(counts.remove(key) =~= counts);
}

/// What is put in comes out again: after pairs were added to an empty
/// distribution, a key that stands in one pair only has that pair's count,
/// and the total is the sum of all the counts given.
pub proof fn lemma_round_trip<K>(pairs: Seq<(K, usize)>, at: int)
    requires
        0 <= at < pairs.len(),
        forall|i: int| 0 <= i < pairs.len() && i != at ==> (#[trigger] pairs[i]).0 != pairs[at].0,
    ensures
        count_of(add_all(Map::<K, nat>::empty(), pairs), pairs[at].0) == pairs[at].1,
        total_of(add_all(Map::<K, nat>::empty(), pairs)) == sum_of_increments(pairs),
{
    lemma_count_add_all(Map::<K, nat>::empty(), pairs, pairs[at].0);
    lemma_increments_for_single(pairs, at);
    lemma_total_empty::<K>();
    lemma_total_add_all(Map::<K, nat>::empty(), pairs);
}

/// Added to an empty distribution, pairs give every key the sum of what was
/// given for it, and a key that stands in no pair the count zero.
pub proof fn lemma_counts_of_pairs<K>(pairs: Seq<(K, usize)>, key: K)
    ensures
        count_of(add_all(Map::<K, nat>::empty(), pairs), key) == increments_for(pairs, key),
        (forall|i: int| 0 <= i < pairs.len() ==> (#[trigger] pairs[i]).0 != key) ==> count_of(
            add_all(Map::<K, nat>::empty(), pairs),
            key,
        ) == 0,
{
    lemma_count_add_all(Map::<K, nat>::empty(), pairs, key);
    if forall|i: int| 0 <= i < pairs.len() ==> (#[trigger] pairs[i]).0 != key {
        lemma_increments_for_absent(pairs, key);
    }
}

/// The entries of a distribution, added to an empty one, give the same
/// distribution again.
pub proof fn lemma_entries_rebuild<K>(counts: Map<K, nat>, pairs: Seq<(K, usize)>)
    requires
        lists_entries(pairs, counts),
    ensures
        add_all(Map::<K, nat>::empty(), pairs) == counts,
{
    let rebuilt = add_all(Map::<K, nat>::empty(), pairs);
    assert forall|k: K| rebuilt.contains_key(k) == counts.contains_key(k) by {
        lemma_keys_add_all(Map::<K, nat>::empty(), pairs, k);
        if exists|i: int| 0 <= i < pairs.len() && pairs[i].0 == k {
            let i = choose|i: int| 0 <= i < pairs.len() && pairs[i].0 == k;
            assert(counts.contains_key(pairs[i].0));
        }
    }
    assert forall|k: K| counts.contains_key(k) implies rebuilt[k] == counts[k] by {
        let i = choose|i: int| 0 <= i < pairs.len() && pairs[i].0 == k;
        assert(counts.contains_key(pairs[i].0));
        assert forall|j: int| 0 <= j < pairs.len() && j != i implies (#[trigger] pairs[j]).0
            != pairs[i].0 by {
            if j < i {
                assert(pairs[j].0 != pairs[i].0);
            } else {
                assert(pairs[i].0 != pairs[j].0);
            }
        }
        lemma_increments_for_single(pairs, i);
        lemma_count_add_all(Map::<K, nat>::empty(), pairs, k);
        assert(rebuilt.contains_key(k));
    }
    assert(rebuilt =~= counts);
}

/// The total is the sum of the counts of all entries, in whatever order they
/// are listed.
pub proof fn lemma_total_is_sum_of_entries<K>(counts: Map<K, nat>, pairs: Seq<(K, usize)>)
    requires
        lists_entries(pairs, counts),
    ensures
        total_of(counts) == sum_of_increments(pairs),
{
    lemma_entries_rebuild(counts, pairs);
    lemma_total_empty::<K>();
    lemma_total_add_all(Map::<K, nat>::empty(), pairs);
}

} // verus!
