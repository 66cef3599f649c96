use const_sort_rs::partition::{partition, partition_equal};
use const_sort_rs::pivot::{break_patterns, choose_pivot, reverse};
use const_sort_rs::quicksort::bit_length;

fn xorshift32(mut r: u32) -> u32 {
    r ^= r << 13;
    r ^= r >> 17;
    r ^= r << 5;
    r
}

#[test]
fn bit_length_counts_binary_digits() {
    assert_eq!(bit_length(0), 0);
    assert_eq!(bit_length(1), 1);
    assert_eq!(bit_length(5), 3);
    assert_eq!(bit_length(1024), 11);
    assert_eq!(bit_length(usize::MAX), usize::BITS);
}

#[test]
fn reverse_reverses() {
    let mut v = [1, 2, 3, 4, 5];
    reverse(&mut v);
    assert_eq!(v, [5, 4, 3, 2, 1]);
    let mut e: [i32; 0] = [];
    reverse(&mut e);
    assert_eq!(e, []);
}

#[test]
fn break_patterns_leaves_short_slices() {
    let mut v = [3, 1, 2, 0, 6, 5, 4];
    break_patterns(&mut v);
    assert_eq!(v, [3, 1, 2, 0, 6, 5, 4]);
}

#[test]
fn break_patterns_swaps_three_drawn_positions() {
    for len in [8usize, 9, 50, 100, 1000] {
        let mut v: Vec<usize> = (0..len).collect();
        break_patterns(&mut v);

        let mut expected: Vec<usize> = (0..len).collect();
        let mut random = len as u32;
        let modulus = len.next_power_of_two();
        let pos = len / 4 * 2;
        for i in 0..3 {
            let x = if usize::BITS <= 32 {
                random = xorshift32(random);
                random as usize
            } else {
                let hi = xorshift32(random);
                let lo = xorshift32(hi);
                random = lo;
                (((hi as u64) << 32) | lo as u64) as usize
            };
            let mut other = x & (modulus - 1);
            if other >= len {
                other -= len;
            }
            expected.swap(pos - 1 + i, other);
        }
        assert_eq!(v, expected);
    }
}

#[test]
fn partition_splits_around_the_pivot() {
    let mut v = [5, 9, 1, 7, 3, 8, 2, 6, 4];
    let (mid, already) = partition(&mut v, 0, &|a: &i32, b: &i32| a < b);
    assert_eq!(v[mid], 5);
    assert_eq!(mid, 4);
    assert!(!already);
    assert!(v[..mid].iter().all(|x| *x < 5));
    assert!(v[mid + 1..].iter().all(|x| *x >= 5));

    let mut w = [1, 2, 3, 4, 5, 6];
    let (mid, already) = partition(&mut w, 2, &|a: &i32, b: &i32| a < b);
    assert_eq!(mid, 2);
    assert!(already);
    assert_eq!(w, [1, 2, 3, 4, 5, 6]);
}

#[test]
fn partition_in_blocks_on_a_long_slice() {
    let mut v: Vec<i32> = (0..1000).map(|i| (i * 7919) % 1000).collect();
    let pivot_value = v[300];
    let (mid, _) = partition(&mut v, 300, &|a: &i32, b: &i32| a < b);
    assert_eq!(v[mid], pivot_value);
    assert_eq!(mid as i32, pivot_value);
    assert!(v[..mid].iter().all(|x| *x < pivot_value));
    assert!(v[mid + 1..].iter().all(|x| *x >= pivot_value));
    let mut sorted = v.clone();
    sorted.sort();
    assert_eq!(sorted, (0..1000).collect::<Vec<i32>>());
}

#[test]
fn partition_equal_gathers_the_pivot_run() {
    let mut v = [2, 5, 2, 9, 2, 7, 2];
    let mid = partition_equal(&mut v, 0, &|a: &i32, b: &i32| a < b);
    assert_eq!(mid, 4);
    assert!(v[..mid].iter().all(|x| *x == 2));
    assert!(v[mid..].iter().all(|x| *x > 2));
}

#[test]
fn choose_pivot_takes_the_middle_of_short_slices() {
    let mut v = [7, 1, 5, 3, 6, 2, 4];
    let (pivot, likely_sorted) = choose_pivot(&mut v, &|a: &i32, b: &i32| a < b);
    assert_eq!(pivot, 3);
    assert!(likely_sorted);
    assert_eq!(v, [7, 1, 5, 3, 6, 2, 4]);
    let mut w = [2, 0, 1];
    assert_eq!(choose_pivot(&mut w, &|a: &i32, b: &i32| a < b), (1, true));
}

#[test]
fn choose_pivot_reverses_a_descending_slice() {
    let mut v: Vec<i32> = (0..100).rev().collect();
    let (pivot, likely_sorted) = choose_pivot(&mut v, &|a: &i32, b: &i32| a < b);
    assert!(likely_sorted);
    assert_eq!(pivot, 100 - 1 - 100 / 4 * 2);
    assert_eq!(v, (0..100).collect::<Vec<i32>>());
}
