//! Stable and unstable sorting of slices of totally ordered elements.
use vstd::prelude::*;
use vstd::layout::size_of;
use vstd::laws_cmp::obeys_cmp;
use crate::comparators::ord_less;
use crate::insertion::insertion_sort;
use crate::model::{permutation, sorted_by};
use crate::quicksort::{const_pred_lt, lemma_pred_lt_answers, quicksort};

verus! {

/// Sorting by insertion, one element at a time.
pub trait StableSortable<T: Ord>: View<V = Seq<T>> {
    /// Sorts the slice by inserting each element into the sorted run before
    /// it.
    fn sort(&mut self)
        ensures
            permutation(old(self)@, final(self)@),
            obeys_cmp::<T>() ==> sorted_by(ord_less::<T>(), final(self)@),
            obeys_cmp::<T>() && sorted_by(ord_less::<T>(), old(self)@) ==> final(self)@ == old(
                self,
            )@,
    ;
}

/// Sorting that may reorder equal elements.
pub trait UnstableSortable<T: Ord>: View<V = Seq<T>> {
    /// Sorts the slice with pattern-defeating quicksort; a slice of
    /// zero-sized elements is left as it is.
    fn sort_unstable(&mut self)
        ensures
            permutation(old(self)@, final(self)@),
            size_of::<T>() == 0 ==> final(self)@ == old(self)@,
            obeys_cmp::<T>() && size_of::<T>() > 0 ==> sorted_by(ord_less::<T>(), final(self)@),
            obeys_cmp::<T>() && sorted_by(ord_less::<T>(), old(self)@) ==> final(self)@ == old(
                self,
            )@,
    ;
}

impl<T: Ord> StableSortable<T> for [T] {
    fn sort(&mut self) {
        proof {
            lemma_pred_lt_answers::<T>();
        }
        insertion_sort(self, &const_pred_lt);
    }
}

impl<T: Ord> UnstableSortable<T> for [T] {
    fn sort_unstable(&mut self) {
        proof {
            lemma_pred_lt_answers::<T>();
        }
        quicksort(self, &const_pred_lt);
    }
}

} // verus!
