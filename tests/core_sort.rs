use const_sort_rs::{const_heapsort, const_quicksort, ConstSliceSortExt};
use rand::{rngs::StdRng, Rng, SeedableRng};

const RAND_CNT: usize = 10_000;

fn gen_array(n: usize) -> Vec<u32> {
    let mut rng = StdRng::seed_from_u64(69420);
    (0..n).map(|_| rng.gen()).collect()
}

#[test]
fn const_core_slice_heapsort() {
    let mut v = [2u8, 3, 5, 4];
    const_heapsort(&mut v, PartialOrd::lt);
    assert_eq!(&v, &[2, 3, 4, 5]);
}

#[test]
fn const_core_slice_heapsort_rng() {
    let mut v = gen_array(RAND_CNT);
    const_heapsort(&mut v, PartialOrd::lt);
    assert!(v.is_sorted());
}

#[test]
fn const_core_slice_quicksort() {
    let mut v = [2u8, 3, 5, 4];
    const_quicksort(&mut v, PartialOrd::lt);
    assert_eq!(&v, &[2, 3, 4, 5]);
}

#[test]
fn const_core_slice_quicksort_rng() {
    let mut v = gen_array(RAND_CNT);
    const_quicksort(&mut v, PartialOrd::lt);
    assert!(v.is_sorted());
}

#[test]
fn const_core_slice_sort_unstable() {
    let mut v = gen_array(RAND_CNT);
    v.const_sort_unstable();
    assert!(v.is_sorted());
}

#[test]
fn const_core_slice_sort_unstable_by() {
    let mut v = gen_array(RAND_CNT);
    v.const_sort_unstable_by(Ord::cmp);
    assert!(v.is_sorted());
}
