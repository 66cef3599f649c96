use const_sort_rs::const_sort::SliceConstUnstableSortable;
use const_sort_rs::mut_ref_sort::{StableSortable, UnstableSortable};
use const_sort_rs::ConstUnstableSortable;
use rand::rngs::StdRng;
use rand::{Rng, SeedableRng};

#[derive(Debug, Clone, Copy, PartialEq, Eq, PartialOrd, Ord)]
struct Rank(i32);

fn random_vec(seed: u64, n: usize, modulus: i32) -> Vec<i32> {
    let mut rng = StdRng::seed_from_u64(seed);
    (0..n).map(|_| rng.gen::<i32>() % modulus).collect()
}

fn sorted_copy(v: &[i32]) -> Vec<i32> {
    let mut w = v.to_vec();
    w.sort();
    w
}

#[test]
fn trait_sorts() {
    let v = random_vec(16, 500, 1000);
    let expected = sorted_copy(&v);
    let mut a = v.clone();
    a.as_mut_slice().const_heapsort();
    assert_eq!(a, expected);
    let mut b = v.clone();
    ConstUnstableSortable::const_quicksort(b.as_mut_slice());
    assert_eq!(b, expected);
    let mut c = v.clone();
    SliceConstUnstableSortable::const_sort_unstable(c.as_mut_slice());
    assert_eq!(c, expected);
    let mut d = v.clone();
    StableSortable::sort(d.as_mut_slice());
    assert_eq!(d, expected);
    let mut e = v.clone();
    UnstableSortable::sort_unstable(e.as_mut_slice());
    assert_eq!(e, expected);
    let mut dup = vec![3, 3, 1, 1, 2, 2, 3, 1];
    SliceConstUnstableSortable::const_sort_unstable(dup.as_mut_slice());
    assert_eq!(dup, vec![1, 1, 1, 2, 2, 3, 3, 3]);
}

#[test]
fn stable_sort_keeps_equal_elements_in_order() {
    let mut v = vec![Rank(2), Rank(1), Rank(2), Rank(0)];
    StableSortable::sort(v.as_mut_slice());
    assert_eq!(v, vec![Rank(0), Rank(1), Rank(2), Rank(2)]);
}

