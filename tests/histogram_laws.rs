use std::collections::HashSet;

use histongram::{DefaultHashBuilder, Histogram};

#[test]
fn instances_and_categories_follow_the_keys() {
    let keys = vec![3u64, 1, 4, 1, 5, 9, 2, 6, 5, 3, 5];
    let h = Histogram::<u64>::from_owned_iter(keys.clone());
    assert_eq!(h.num_instances(), keys.len());
    let distinct: HashSet<u64> = keys.iter().copied().collect();
    assert_eq!(h.num_categories(), distinct.len());
}

#[test]
fn count_is_how_often_a_key_was_added() {
    let mut h = Histogram::<u64>::new();
    for _ in 0..7 {
        h.add_owned(42);
    }
    h.add_owned(1);
    assert_eq!(h.count(&42), 7);
    assert_eq!(h.count(&1), 1);
    assert_eq!(h.count(&2), 0);
}

#[test]
fn relative_count_of_empty_histogram_is_zero() {
    let h = Histogram::<u64>::new();
    let (n, d) = h.count_rel(&5);
    assert_eq!((n, d), (0, 1));
    assert_eq!(n as f64 / d as f64, 0.0);
}

#[test]
fn relative_count_of_absent_key_is_zero() {
    let h = Histogram::<u64>::from_owned_iter(vec![1, 1, 2, 3]);
    assert_eq!(h.count_rel(&1), (2, 4));
    assert_eq!(h.count_rel(&9), (0, 4));
}

#[test]
fn sorted_occurrences_descend_and_hold_the_same_pairs() {
    let h = Histogram::<u64>::from_owned_iter(vec![5, 1, 5, 2, 5, 2, 7, 7, 7, 7]);
    let mut listed: Vec<(u64, usize)> = h.iter().into_iter().map(|(k, c)| (*k, c)).collect();
    let sorted = h.sorted_occurrences();
    for pair in sorted.windows(2) {
        assert!(pair[0].1 >= pair[1].1);
    }
    let mut resorted = sorted.clone();
    resorted.sort();
    listed.sort();
    assert_eq!(resorted, listed);
    assert_eq!(sorted[0], (7, 4));
}

#[test]
fn append_adds_counts_in_either_order() {
    let a = vec![1u64, 2, 2, 3];
    let b = vec![2u64, 3, 3, 4];
    let mut ab = Histogram::<u64>::from_owned_iter(a.clone());
    ab.append(Histogram::from_owned_iter(b.clone()));
    let mut ba = Histogram::<u64>::from_owned_iter(b);
    ba.append(Histogram::from_owned_iter(a));
    for k in 0..6u64 {
        assert_eq!(ab.count(&k), ba.count(&k));
    }
    assert_eq!(ab.count(&2), 3);
    assert_eq!(ab.count(&3), 3);
    assert_eq!(ab.count(&4), 1);
    assert_eq!(ab.num_instances(), 8);
}

#[test]
fn counts_round_trip() {
    let pairs = vec![(10u64, 3usize), (20, 1), (30, 5)];
    let h = Histogram::<u64, DefaultHashBuilder>::from_counts(pairs.clone());
    assert_eq!(h.num_instances(), 9);
    let mut back: Vec<(u64, usize)> = h.iter().into_iter().map(|(k, c)| (*k, c)).collect();
    back.sort();
    assert_eq!(back, pairs);
}

#[test]
fn repeated_keys_in_counts_add_up() {
    let h = Histogram::<u64, DefaultHashBuilder>::from_counts(vec![(1, 2), (1, 3), (2, 0)]);
    assert_eq!(h.count(&1), 5);
    assert_eq!(h.count(&2), 0);
    assert_eq!(h.num_categories(), 1);
}

#[test]
fn characters_sorted_by_count() {
    let h = Histogram::<char>::from_owned_iter("aaaxxzzzzz".chars().collect());
    assert_eq!(h.sorted_occurrences(), vec![('z', 5), ('a', 3), ('x', 2)]);
}

#[test]
fn fx_hashed_histogram_counts_like_the_default() {
    let mut h = Histogram::<&str, histongram::FxBuildHasher>::new_fxhash();
    h.add_owned("x");
    h.add_ref(&"x");
    assert_eq!(h.count(&"x"), 2);
    assert_eq!(h.num_categories(), 1);
}
