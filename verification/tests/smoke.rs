use freqdist::FrequencyDistribution;

#[test]
fn smoke_test_frequency_distribution_insert() {
    let words = vec!["alpha", "beta"];
    let mut dist: FrequencyDistribution<&str> = FrequencyDistribution::new();

    dist.insert(words[0]);

    assert_eq!(dist.get(&words[0]), 1);

    dist.insert(words[1]);

    assert_eq!(dist.get(&words[1]), 1);

    for _ in 0..7u32 {
        dist.insert(words[0]);
    }

    assert_eq!(dist.get(&words[0]), 8);
}

#[test]
fn smoke_test_frequency_distribution_iter() {
    let words = vec![("a", 50usize), ("b", 100usize), ("c", 75usize), ("d", 0usize)];
    let dist: FrequencyDistribution<&str> = FrequencyDistribution::from_iter(words.into_iter());

    assert_eq!(dist.get(&"a"), 50);
    assert_eq!(dist.get(&"b"), 100);
    assert_eq!(dist.get(&"c"), 75);

    let mut iter = dist.iter_non_zero();

    assert!(iter.next().is_some());
    assert!(iter.next().is_some());
    assert!(iter.next().is_some());
    assert!(iter.next().is_none());

    assert_eq!(dist.sum_counts(), 225);
}

#[test]
fn smoke_test_frequency_distribution_remove() {
    let words = vec![("a", 50usize), ("b", 100usize), ("c", 25usize)];
    let mut dist: FrequencyDistribution<&str> =
        FrequencyDistribution::from_iter(words.into_iter());

    assert_eq!(dist.get(&"a"), 50);

    dist.remove(&"a");

    assert_eq!(dist.get(&"a"), 0);
    assert_eq!(dist.sum_counts(), 125);
}

#[test]
fn smoke_test_frequency_sum_counts() {
    let words = vec![("a", 7usize), ("b", 5usize), ("c", 8usize), ("d", 3usize)];
    let mut dist: FrequencyDistribution<&str> =
        FrequencyDistribution::from_iter(words.into_iter());

    assert_eq!(dist.sum_counts(), 23);

    dist.insert("e");

    assert_eq!(dist.sum_counts(), 24);
}
