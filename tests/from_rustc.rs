use core::cmp::Ordering::{Equal, Greater, Less};
use std::cell::RefCell;

use const_sort_rs::{const_heapsort, ConstSliceSortExt};
use rand::rngs::StdRng;
use rand::seq::SliceRandom;
use rand::{Rng, SeedableRng};

#[test]
fn sort_unstable() {
    let lens = (2..25).chain(500..510);
    let rounds = 100;

    let mut v = [0; 600];
    let mut tmp = [0; 600];
    let mut rng = StdRng::from_entropy();

    for len in lens {
        let v = &mut v[0..len];
        let tmp = &mut tmp[0..len];

        for &modulus in &[5, 10, 100, 1000] {
            for _ in 0..rounds {
                for item in v.iter_mut().take(len) {
                    *item = rng.gen::<i32>() % modulus;
                }

                // Sort in default order.
                tmp.copy_from_slice(v);
                tmp.const_sort_unstable();
                assert!(tmp.windows(2).all(|w| w[0] <= w[1]));

                // Sort in ascending order.
                tmp.copy_from_slice(v);
                tmp.const_sort_unstable_by(Ord::cmp);
                assert!(tmp.windows(2).all(|w| w[0] <= w[1]));

                // Sort in descending order.
                tmp.copy_from_slice(v);
                tmp.const_sort_unstable_by(|a, b| b.cmp(a));
                assert!(tmp.windows(2).all(|w| w[0] >= w[1]));

                // Test heapsort using `<` operator.
                tmp.copy_from_slice(v);
                const_heapsort(tmp, |a, b| a < b);
                assert!(tmp.windows(2).all(|w| w[0] <= w[1]));

                // Test heapsort using `>` operator.
                tmp.copy_from_slice(v);
                const_heapsort(tmp, |a, b| a > b);
                assert!(tmp.windows(2).all(|w| w[0] >= w[1]));
            }
        }
    }

    // Sort using a completely random comparison function.
    // This will reorder the elements *somehow*, but won't panic.
    for (i, item) in v.iter_mut().enumerate() {
        *item = i32::try_from(i).unwrap();
    }
    let rng = RefCell::new(rng);
    v.const_sort_unstable_by(|_, _| *[Less, Equal, Greater].choose(&mut *rng.borrow_mut()).unwrap());
    v.const_sort_unstable();
    for (i, &item) in v.iter().enumerate() {
        assert_eq!(item, i32::try_from(i).unwrap());
    }

    // Should not panic.
    [0i32; 0].const_sort_unstable();
    [(); 10].const_sort_unstable();
    [(); 100].const_sort_unstable();

    let mut v = [0xDEAD_BEEF_u64];
    v.const_sort_unstable();
    assert!(v == [0xDEAD_BEEF]);
}

#[test]
fn select_nth_unstable() {
    let mut rng = StdRng::from_entropy();

    for len in (2..21).chain(500..501) {
        let mut orig = vec![0; len];

        for &modulus in &[5, 10, 1000] {
            for _ in 0..10 {
                for item in orig.iter_mut().take(len) {
                    *item = rng.gen::<i32>() % modulus;
                }

                let v_sorted = {
                    let mut v = orig.clone();
                    v.const_sort_unstable();
                    v
                };

                // Sort in default order.
                for pivot in 0..len {
                    let mut v = orig.clone();
                    v.const_select_nth_unstable(pivot).unwrap();

                    assert_eq!(v_sorted[pivot], v[pivot]);
                    for i in 0..pivot {
                        for j in pivot..len {
                            assert!(v[i] <= v[j]);
                        }
                    }
                }

                // Sort in ascending order.
                for pivot in 0..len {
                    let mut v = orig.clone();
                    let (left, pivot, right) = v.const_select_nth_unstable_by(pivot, Ord::cmp).unwrap();

                    assert_eq!(left.len() + right.len(), len - 1);

                    for l in left {
                        assert!(l <= pivot);
                        for r in right.iter_mut() {
                            assert!(l <= r);
                            assert!(pivot <= r);
                        }
                    }
                }

                // Sort in descending order.
                let sort_descending_comparator = |a: &i32, b: &i32| b.cmp(a);
                let v_sorted_descending = {
                    let mut v = orig.clone();
                    v.sort_by(sort_descending_comparator);
                    v
                };

                for pivot in 0..len {
                    let mut v = orig.clone();
                    v.const_select_nth_unstable_by(pivot, sort_descending_comparator).unwrap();

                    assert_eq!(v_sorted_descending[pivot], v[pivot]);
                    for i in 0..pivot {
                        for j in pivot..len {
                            assert!(v[j] <= v[i]);
                        }
                    }
                }
            }
        }
    }

    // Sort at index using a completely random comparison function.
    // This will reorder the elements *somehow*, but won't panic.
    let mut v = [0; 500];
    for (i, item) in v.iter_mut().enumerate() {
        *item = i32::try_from(i).unwrap();
    }

    let rng = RefCell::new(rng);
    for pivot in 0..v.len() {
        v.const_select_nth_unstable_by(pivot, |_, _| {
            *[Less, Equal, Greater].choose(&mut *rng.borrow_mut()).unwrap()
        })
        .unwrap();
        v.const_sort_unstable();
        for (i, &item) in v.iter().enumerate() {
            assert_eq!(item, i32::try_from(i).unwrap());
        }
    }

    // Should not panic.
    [(); 10].const_select_nth_unstable(0).unwrap();
    [(); 10].const_select_nth_unstable(5).unwrap();
    [(); 10].const_select_nth_unstable(9).unwrap();
    [(); 100].const_select_nth_unstable(0).unwrap();
    [(); 100].const_select_nth_unstable(50).unwrap();
    [(); 100].const_select_nth_unstable(99).unwrap();

    let mut v = [0xDEAD_BEEF_u64];
    v.const_select_nth_unstable(0).unwrap();
    assert!(v == [0xDEAD_BEEF]);
}

#[test]
fn const_select_nth_unstable_zero_length() {
    let mut v = [0i32; 0];
    let r = v.const_select_nth_unstable(0);
    assert!(r.is_err());
    assert_eq!(r.err().unwrap().index, 0);
}

#[test]
fn const_select_nth_unstable_past_length() {
    let mut v = [0i32; 10];
    let r = v.const_select_nth_unstable(20);
    assert!(r.is_err());
    let e = r.err().unwrap();
    assert_eq!(e.index, 20);
    assert_eq!(e.len, 10);
}

#[test]
fn test_const_is_sorted() {
    let empty: [i32; 0] = [];

    assert!([1, 2, 2, 9].const_is_sorted());
    assert!(![1, 3, 2].const_is_sorted());
    assert!([0].const_is_sorted());
    assert!(empty.const_is_sorted());
    assert!(![0.0, 1.0, f32::NAN].const_is_sorted());
    assert!([-2, -1, 0, 3].const_is_sorted());
    assert!(![-2i32, -1, 0, 3].const_is_sorted_by_key(|n| n.abs()));
    assert!(!["c", "bb", "aaa"].const_is_sorted());
    assert!(["c", "bb", "aaa"].const_is_sorted_by_key(|s| s.len()));
}
