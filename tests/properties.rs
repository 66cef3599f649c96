use std::cell::Cell;

use const_sort_rs::fake_usize_ptr::FakeUsizePtr;
use const_sort_rs::{
    const_heapsort, const_partition_at_index, const_pred_lt, const_quicksort, ConstSliceSortExt,
    IndexOutOfBounds,
};
use rand::rngs::StdRng;
use rand::{Rng, SeedableRng};

fn random_vec(seed: u64, n: usize, modulus: i32) -> Vec<i32> {
    let mut rng = StdRng::seed_from_u64(seed);
    (0..n).map(|_| rng.gen::<i32>() % modulus).collect()
}

fn sorted_copy(v: &[i32]) -> Vec<i32> {
    let mut w = v.to_vec();
    w.sort();
    w
}

#[test]
fn sorts_the_concrete_example() {
    let mut v = [2, 3, 5, 4];
    v.const_sort_unstable();
    assert_eq!(v, [2, 3, 4, 5]);
}

#[test]
fn selects_the_median_of_the_concrete_example() {
    let mut v = [5, 4, 1, 3, 2];
    let (left, nth, right) = v.const_select_nth_unstable(2).unwrap();
    assert_eq!(*nth, 3);
    let mut l = left.to_vec();
    l.sort();
    assert_eq!(l, vec![1, 2]);
    let mut r = right.to_vec();
    r.sort();
    assert_eq!(r, vec![4, 5]);
    assert_eq!(v[2], 3);
}

#[test]
fn sorting_is_a_permutation() {
    for (seed, n, modulus) in [(1, 0, 10), (2, 1, 10), (3, 300, 7), (4, 5000, 1_000_000)] {
        let v = random_vec(seed, n, modulus);
        let mut w = v.clone();
        w.const_sort_unstable();
        assert_eq!(w, sorted_copy(&v));
    }
    let mut same = vec![7; 1000];
    same.const_sort_unstable();
    assert_eq!(same, vec![7; 1000]);
}

#[test]
fn sorted_output_is_in_order() {
    let mut v = random_vec(11, 2000, 100);
    const_quicksort(&mut v, |a, b| a < b);
    assert!(v.windows(2).all(|w| w[0] <= w[1]));
}

#[test]
fn sorting_twice_changes_nothing() {
    let mut once = random_vec(12, 3000, 50);
    once.const_sort_unstable();
    let mut twice = once.clone();
    twice.const_sort_unstable();
    assert_eq!(twice, once);
}

#[test]
fn sorting_a_sorted_slice_of_pairs_keeps_it() {
    // Elements equal by the comparator but distinguishable stay in place.
    let mut v: Vec<(i32, i32)> = (0..200).map(|i| (i / 10, i)).collect();
    let before = v.clone();
    v.const_sort_unstable_by(|a, b| a.0.cmp(&b.0));
    assert_eq!(v, before);
}

#[test]
fn reverse_comparator_gives_non_increasing_order() {
    let mut v = random_vec(13, 1000, 300);
    v.const_sort_unstable_by(|a, b| b.cmp(a));
    assert!(v.windows(2).all(|w| w[0] >= w[1]));
    let mut h = random_vec(14, 1000, 300);
    const_heapsort(&mut h, |a, b| a > b);
    assert!(h.windows(2).all(|w| w[0] >= w[1]));
}

#[test]
fn sort_by_key_orders_by_key() {
    let mut v = [-5i32, 4, 1, -3, 2];
    v.const_sort_unstable_by_key(|k| k.abs());
    assert_eq!(v, [1, 2, -3, 4, -5]);
}

#[test]
fn selection_orders_around_the_index() {
    let v = random_vec(15, 400, 60);
    let sorted = sorted_copy(&v);
    for index in [0, 1, 57, 199, 398, 399] {
        let mut w = v.clone();
        w.const_select_nth_unstable(index).unwrap();
        assert_eq!(w[index], sorted[index]);
        assert!(w[..index].iter().all(|x| *x <= w[index]));
        assert!(w[index + 1..].iter().all(|x| *x >= w[index]));
    }
}

#[test]
fn selection_boundaries() {
    let mut empty: [i32; 0] = [];
    assert_eq!(
        empty.const_select_nth_unstable(0).err(),
        Some(IndexOutOfBounds { index: 0, len: 0 })
    );
    let mut v = [4, 9, 1, 7, 3];
    assert_eq!(
        v.const_select_nth_unstable(5).err(),
        Some(IndexOutOfBounds { index: 5, len: 5 })
    );
    assert_eq!(v, [4, 9, 1, 7, 3]);
    let mut first = v;
    let (left, nth, _) = first.const_select_nth_unstable(0).unwrap();
    assert_eq!(left.len(), 0);
    assert_eq!(*nth, 1);
    let mut last = v;
    let (_, nth, right) = last.const_select_nth_unstable(4).unwrap();
    assert_eq!(right.len(), 0);
    assert_eq!(*nth, 9);
}

#[test]
fn select_by_comparator_and_key() {
    let mut v = [-5i32, 4, 1, -3, 2];
    let (_, nth, _) = v.const_select_nth_unstable_by(1, |a, b| b.cmp(a)).unwrap();
    assert_eq!(*nth, 2);
    let mut w = [-5i32, 4, 1, -3, 2];
    let (_, nth, _) = w.const_select_nth_unstable_by_key(2, |k| k.abs()).unwrap();
    assert_eq!(*nth, -3);
    let mut x = [1, 2, 3];
    assert_eq!(
        x.const_select_nth_unstable_by(3, Ord::cmp).err(),
        Some(IndexOutOfBounds { index: 3, len: 3 })
    );
}

#[test]
fn partition_at_index_by_predicate() {
    let mut v = [8u64, 1, 9, 4, 4, 0, 7];
    let (left, nth, right) = const_partition_at_index(&mut v, 3, |a: &u64, b: &u64| a < b).unwrap();
    assert_eq!(*nth, 4);
    assert!(left.iter().all(|x| *x <= 4));
    assert!(right.iter().all(|x| *x >= 4));
    let mut e: [u64; 0] = [];
    assert!(const_partition_at_index(&mut e, 0, |a: &u64, b: &u64| a < b).is_err());
}

#[test]
fn sortedness_checks() {
    assert!([1, 2, 2, 9].const_is_sorted());
    assert!(![1, 3, 2].const_is_sorted());
    let empty: [i32; 0] = [];
    assert!(empty.const_is_sorted());
    assert!(![0.0, 1.0, f64::NAN].const_is_sorted());
    assert!([3, 2, 2, 1].const_is_sorted_by(|a, b| b.partial_cmp(a)));
    assert!(![1, 2].const_is_sorted_by(|_, _| None));
}

fn count_comparisons(v: &mut [i64]) -> u64 {
    let count = Cell::new(0u64);
    const_quicksort(v, |a, b| {
        count.set(count.get() + 1);
        a < b
    });
    count.get()
}

fn n_log_n(n: usize) -> u64 {
    let log = usize::BITS - n.leading_zeros();
    n as u64 * log as u64
}

#[test]
fn adversarial_inputs_take_n_log_n_comparisons() {
    let n = 1 << 14;
    let descending: Vec<i64> = (0..n as i64).rev().collect();
    let organ_pipe: Vec<i64> = (0..n as i64 / 2).chain((0..n as i64 / 2).rev()).collect();
    let sawtooth: Vec<i64> = (0..n as i64).map(|i| i % 64).collect();
    // Median-of-three killer: odd positions ascending from the middle.
    let mut killer = vec![0i64; n];
    let k = n / 2;
    for i in 0..k {
        if i % 2 == 0 {
            killer[i] = i as i64 + 1;
            killer[i + 1] = (k + i + 1) as i64;
        }
        killer[k + i] = 2 * (i as i64 + 1);
    }
    for input in [descending, organ_pipe, sawtooth, killer] {
        let mut v = input.clone();
        let comparisons = count_comparisons(&mut v);
        assert!(v.windows(2).all(|w| w[0] <= w[1]));
        assert!(comparisons <= 8 * n_log_n(n), "{} comparisons", comparisons);
    }
}

#[test]
fn recursion_depth_stays_logarithmic() {
    // Deep recursion on a large adversarial input would overflow the
    // stack of a test thread; sorting it completes.
    let n = 1 << 20;
    let mut v: Vec<i64> = (0..n as i64).map(|i| if i % 2 == 0 { i } else { n as i64 - i }).collect();
    const_quicksort(&mut v, |a, b| a < b);
    assert!(v.windows(2).all(|w| w[0] <= w[1]));
}

#[test]
fn pred_lt_is_less_than() {
    assert!(const_pred_lt(&1, &2));
    assert!(!const_pred_lt(&2, &2));
    assert!(!const_pred_lt(&3, &2));
}

#[test]
fn fake_pointer_arithmetic() {
    let p = FakeUsizePtr::null_mut();
    assert_eq!(p.addr(), 0);
    let q = p.add(7);
    assert_eq!(q.addr(), 7);
    assert_eq!(q.sub(3).addr(), 4);
    assert!(q == p.add(7));
}
