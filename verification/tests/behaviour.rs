use freqdist::distribution::capacity_for;
use freqdist::FrequencyDistribution;
use std::collections::hash_map::DefaultHasher;
use std::collections::HashSet;
use std::hash::BuildHasherDefault;

fn sample() -> FrequencyDistribution<&'static str> {
    let pairs = vec![("a", 50usize), ("b", 100usize), ("c", 75usize), ("d", 0usize)];
    FrequencyDistribution::from_iter(pairs.into_iter())
}

#[test]
fn new_is_empty() {
    let dist: FrequencyDistribution<&str> = FrequencyDistribution::new();
    assert_eq!(dist.len(), 0);
    assert_eq!(dist.sum_counts(), 0);
    assert_eq!(dist.get(&"anything"), 0);
    assert_eq!(dist.keys().count(), 0);
    assert_eq!(dist.iter().count(), 0);
}

#[test]
fn default_is_empty() {
    let dist: FrequencyDistribution<String> = Default::default();
    assert_eq!(dist.len(), 0);
    assert_eq!(dist.sum_counts(), 0);
    assert_eq!(dist.get(&String::from("x")), 0);
}

#[test]
fn with_capacity_changes_nothing_that_shows() {
    let mut plain: FrequencyDistribution<u32> = FrequencyDistribution::new();
    let mut sized: FrequencyDistribution<u32> = FrequencyDistribution::with_capacity(1000);
    assert_eq!(sized.len(), 0);
    assert_eq!(sized.sum_counts(), 0);
    for key in [3u32, 1, 3, 3, 2, 1] {
        plain.insert(key);
        sized.insert(key);
    }
    for key in 0u32..5 {
        assert_eq!(plain.get(&key), sized.get(&key));
    }
    assert_eq!(plain.len(), sized.len());
    assert_eq!(plain.sum_counts(), sized.sum_counts());
    assert_eq!(sized.get(&3), 3);
    assert_eq!(sized.sum_counts(), 6);
}

#[test]
fn with_hasher_counts_like_any_other() {
    let state: BuildHasherDefault<DefaultHasher> = BuildHasherDefault::default();
    let mut dist: FrequencyDistribution<&str, BuildHasherDefault<DefaultHasher>> =
        FrequencyDistribution::with_hasher(state);
    assert_eq!(dist.len(), 0);
    assert_eq!(dist.sum_counts(), 0);
    dist.insert("x");
    dist.insert("y");
    dist.insert("x");
    assert_eq!(dist.get(&"x"), 2);
    assert_eq!(dist.get(&"y"), 1);
    assert_eq!(dist.get(&"z"), 0);
    assert_eq!(dist.sum_counts(), 3);
}

#[test]
fn with_capacity_and_hasher_is_empty() {
    let state: BuildHasherDefault<DefaultHasher> = BuildHasherDefault::default();
    let mut dist: FrequencyDistribution<u8, BuildHasherDefault<DefaultHasher>> =
        FrequencyDistribution::with_capacity_and_hasher(16, state);
    assert_eq!(dist.len(), 0);
    assert_eq!(dist.sum_counts(), 0);
    assert_eq!(dist.get(&9), 0);
    dist.insert(9);
    assert_eq!(dist.get(&9), 1);
    assert_eq!(dist.len(), 1);
}

#[test]
fn insert_counts_each_occurrence() {
    let mut dist: FrequencyDistribution<&str> = FrequencyDistribution::new();
    dist.insert("hello");
    dist.insert("hello");
    dist.insert("goodbye");
    assert_eq!(dist.get(&"hello"), 2);
    assert_eq!(dist.get(&"goodbye"), 1);
    assert_eq!(dist.sum_counts(), 3);
    assert_eq!(dist.len(), 2);
}

#[test]
fn from_pairs_keeps_the_counts_given() {
    let dist = sample();
    assert_eq!(dist.get(&"a"), 50);
    assert_eq!(dist.get(&"b"), 100);
    assert_eq!(dist.get(&"c"), 75);
    assert_eq!(dist.get(&"d"), 0);
    assert_eq!(dist.sum_counts(), 225);
}

#[test]
fn a_zero_count_still_is_an_entry() {
    let dist = sample();
    assert_eq!(dist.len(), 4);
    let keys: HashSet<&str> = dist.keys().copied().collect();
    let expected: HashSet<&str> = ["a", "b", "c", "d"].into_iter().collect();
    assert_eq!(keys, expected);
}

#[test]
fn non_zero_iteration_yields_the_observed_keys() {
    let dist = sample();
    let mut iter = dist.iter_non_zero();
    let mut seen: Vec<&str> = Vec::new();
    while let Some(key) = iter.next() {
        seen.push(*key);
    }
    assert_eq!(seen.len(), 3);
    let seen: HashSet<&str> = seen.into_iter().collect();
    let expected: HashSet<&str> = ["a", "b", "c"].into_iter().collect();
    assert_eq!(seen, expected);
    assert!(iter.next().is_none());
    assert!(iter.next().is_none());
}

#[test]
fn non_zero_iteration_over_zeros_only_is_empty() {
    let pairs = vec![("x", 0usize), ("y", 0usize)];
    let dist: FrequencyDistribution<&str> = FrequencyDistribution::from_iter(pairs.into_iter());
    assert_eq!(dist.len(), 2);
    assert_eq!(dist.sum_counts(), 0);
    let mut iter = dist.iter_non_zero();
    assert!(iter.next().is_none());
}

#[test]
fn iter_lists_every_entry_once() {
    let dist = sample();
    let mut entries: Vec<(&str, usize)> = dist.iter().map(|(k, c)| (*k, *c)).collect();
    entries.sort();
    assert_eq!(entries, vec![("a", 50), ("b", 100), ("c", 75), ("d", 0)]);
}

#[test]
fn into_iter_hands_out_every_entry_once() {
    let dist = sample();
    let mut entries: Vec<(&str, usize)> = dist.into_iter().collect();
    entries.sort();
    assert_eq!(entries, vec![("a", 50), ("b", 100), ("c", 75), ("d", 0)]);
}

#[test]
fn into_iter_of_empty_is_empty() {
    let dist: FrequencyDistribution<u64> = FrequencyDistribution::new();
    assert_eq!(dist.into_iter().count(), 0);
}

#[test]
fn remove_takes_the_count_off_the_total() {
    let mut dist = sample();
    dist.remove(&"a");
    assert_eq!(dist.get(&"a"), 0);
    assert_eq!(dist.sum_counts(), 175);
    assert_eq!(dist.len(), 3);
}

#[test]
fn remove_twice_is_remove_once() {
    let mut dist = sample();
    dist.remove(&"a");
    dist.remove(&"a");
    assert_eq!(dist.get(&"a"), 0);
    assert_eq!(dist.sum_counts(), 175);
    assert_eq!(dist.len(), 3);
    assert_eq!(dist.get(&"b"), 100);
    assert_eq!(dist.get(&"c"), 75);
}

#[test]
fn remove_of_an_absent_key_changes_nothing() {
    let mut dist = sample();
    dist.remove(&"never seen");
    assert_eq!(dist.sum_counts(), 225);
    assert_eq!(dist.len(), 4);
    assert_eq!(dist.get(&"a"), 50);
}

#[test]
fn remove_of_a_zero_count_entry_drops_the_entry_only() {
    let mut dist = sample();
    dist.remove(&"d");
    assert_eq!(dist.len(), 3);
    assert_eq!(dist.sum_counts(), 225);
}

#[test]
fn insert_after_construction() {
    let pairs = vec![("a", 7usize), ("b", 5usize), ("c", 8usize), ("d", 3usize)];
    let mut dist: FrequencyDistribution<&str> = FrequencyDistribution::from_iter(pairs.into_iter());
    assert_eq!(dist.sum_counts(), 23);
    dist.insert("e");
    assert_eq!(dist.sum_counts(), 24);
    assert_eq!(dist.get(&"e"), 1);
    assert_eq!(dist.len(), 5);
}

#[test]
fn clear_resets_entries_and_total() {
    let mut dist = sample();
    dist.clear();
    assert_eq!(dist.len(), 0);
    assert_eq!(dist.sum_counts(), 0);
    for key in ["a", "b", "c", "d"] {
        assert_eq!(dist.get(&key), 0);
    }
    assert!(dist.iter_non_zero().next().is_none());
}

#[test]
fn counting_goes_on_after_clear() {
    let mut dist = sample();
    dist.clear();
    dist.insert("a");
    dist.insert("z");
    assert_eq!(dist.get(&"a"), 1);
    assert_eq!(dist.get(&"z"), 1);
    assert_eq!(dist.sum_counts(), 2);
    assert_eq!(dist.len(), 2);
}

#[test]
fn extend_adds_on_top() {
    let mut dist = sample();
    dist.extend(vec![("a", 1usize), ("e", 4usize), ("a", 2usize)].into_iter());
    assert_eq!(dist.get(&"a"), 53);
    assert_eq!(dist.get(&"e"), 4);
    assert_eq!(dist.get(&"b"), 100);
    assert_eq!(dist.sum_counts(), 232);
    assert_eq!(dist.len(), 5);
}

#[test]
fn extend_with_nothing_changes_nothing() {
    let mut dist = sample();
    dist.extend(Vec::<(&str, usize)>::new().into_iter());
    assert_eq!(dist.sum_counts(), 225);
    assert_eq!(dist.len(), 4);
}

#[test]
fn repeated_keys_accumulate() {
    let pairs = vec![("k", 2usize), ("k", 3usize), ("j", 1usize), ("k", 5usize)];
    let dist: FrequencyDistribution<&str> = FrequencyDistribution::from_iter(pairs.into_iter());
    assert_eq!(dist.get(&"k"), 10);
    assert_eq!(dist.get(&"j"), 1);
    assert_eq!(dist.sum_counts(), 11);
    assert_eq!(dist.len(), 2);
}

#[test]
fn round_trip_through_extend() {
    let pairs = vec![(10u64, 3usize), (20, 0), (30, 9), (40, 1)];
    let mut dist: FrequencyDistribution<u64> = FrequencyDistribution::new();
    dist.extend(pairs.clone().into_iter());
    for (key, count) in pairs.iter() {
        assert_eq!(dist.get(key), *count);
    }
    assert_eq!(dist.sum_counts(), 13);
}

#[test]
fn never_inserted_keys_count_zero() {
    let mut dist: FrequencyDistribution<u64> = FrequencyDistribution::new();
    for key in 0u64..10 {
        dist.insert(key * 2);
    }
    dist.remove(&4);
    for key in 0u64..10 {
        assert_eq!(dist.get(&(key * 2 + 1)), 0);
    }
    assert_eq!(dist.get(&4), 0);
    assert_eq!(dist.get(&1000), 0);
}

#[test]
fn total_is_the_sum_of_the_counts() {
    let mut dist: FrequencyDistribution<u32> = FrequencyDistribution::new();
    let steps: [(u32, bool); 12] = [
        (1, true), (2, true), (1, true), (3, true), (2, false), (1, true),
        (4, true), (3, false), (3, false), (5, true), (1, false), (2, true),
    ];
    for (key, add) in steps {
        if add {
            dist.insert(key);
        } else {
            dist.remove(&key);
        }
        let sum: usize = dist.iter().map(|(_, c)| *c).sum();
        assert_eq!(dist.sum_counts(), sum);
    }
    assert_eq!(dist.sum_counts(), 3);
    assert_eq!(dist.get(&2), 1);
    assert_eq!(dist.get(&4), 1);
    assert_eq!(dist.get(&5), 1);
}

#[test]
fn indexing_reads_a_count() {
    let dist = sample();
    assert_eq!(dist[&"b"], 100);
    assert_eq!(dist[&"d"], 0);
    assert_eq!(dist[&"missing"], 0);
}

#[test]
fn capacity_prefers_the_upper_bound() {
    assert_eq!(capacity_for(3, Some(8)), 8);
    assert_eq!(capacity_for(3, Some(0)), 0);
    assert_eq!(capacity_for(3, None), 3);
    assert_eq!(capacity_for(0, None), 0);
}

#[test]
fn from_iter_takes_iterators_without_an_upper_bound() {
    let pairs = vec![("a", 1usize), ("b", 2usize), ("a", 3usize)];
    let endless_hint = pairs.into_iter().filter(|pair| pair.1 > 0);
    let dist: FrequencyDistribution<&str> = FrequencyDistribution::from_iter(endless_hint);
    assert_eq!(dist.get(&"a"), 4);
    assert_eq!(dist.get(&"b"), 2);
    assert_eq!(dist.sum_counts(), 6);
}
