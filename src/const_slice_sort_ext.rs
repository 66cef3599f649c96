//! Sorting, selection and sortedness checks as methods on slices.
use vstd::prelude::*;
use vstd::layout::size_of;
use core::cmp::Ordering;
use vstd::laws_cmp::obeys_cmp;
use vstd::std_specs::cmp::{PartialOrdIs, PartialOrdSpec};
use crate::comparators::{
    answers_ordering_by, compare_callable, in_order, key_callable, keys_answered, keys_order_by,
    lemma_ord_strict_weak_order, ord_less,
};
use crate::model::{answers_by, permutation, sorted_by};
use crate::quicksort::quicksort;
use crate::select::{IndexOutOfBounds, partition_at_index, selected};

verus! {

/// `compare` may answer for `a` and `b` that they are in order
/// (`Some(Less)` or `Some(Equal)`), when `ok`, or that they are not
/// (`Some(Greater)` or `None`), when not `ok`.
pub open spec fn answered<T, F: Fn(&T, &T) -> Option<Ordering>>(compare: F, a: T, b: T, ok: bool) -> bool {
    exists|o: Option<Ordering>|
        call_ensures(compare, (&a, &b), o) && (o matches Some(Ordering::Less | Ordering::Equal)) == ok
}

/// `out` is what sorting `s` by `<` may leave: a permutation of `s`, sorted
/// when the comparisons of `T` obey the laws of a total order, and `s`
/// itself when it was sorted already or its elements are zero-sized.
pub open spec fn sorts_to<T: Ord>(s: Seq<T>, out: Seq<T>) -> bool {
    &&& permutation(s, out)
    &&& size_of::<T>() == 0 ==> out == s
    &&& obeys_cmp::<T>() ==> (size_of::<T>() > 0 ==> sorted_by(ord_less::<T>(), out)) && (
    sorted_by(ord_less::<T>(), s) ==> out == s)
}

/// An answer of a comparator that compares the keys `key` gives is an answer
/// about those keys.
proof fn lemma_keys_answered<T, K: PartialOrd, G: Fn(&T) -> K, C: Fn(&T, &T) -> Option<Ordering>>(
    key: G,
    compare: C,
    a: T,
    b: T,
    ok: bool,
)
    requires
        K::obeys_partial_cmp_spec(),
        answered(compare, a, b, ok),
        forall|x: &T, y: &T, o: Option<Ordering>|
            #[trigger] call_ensures(compare, (x, y), o) ==> exists|kx: K, ky: K|
                call_ensures(key, (x,), kx) && call_ensures(key, (y,), ky) && o == kx.partial_cmp_spec(
                    &ky,
                ),
    ensures
        keys_answered(key, a, b, ok),
{
    let o = choose|o: Option<Ordering>|
        call_ensures(compare, (&a, &b), o) && (o matches Some(Ordering::Less | Ordering::Equal)) == ok;
    let (ka, kb) = choose|ka: K, kb: K|
        call_ensures(key, (&a,), ka) && call_ensures(key, (&b,), kb) && o == ka.partial_cmp_spec(&kb);
    assert(in_order(ka, kb) == ok);
}

/// Sorting and selection for slices, without allocation.
pub trait ConstSliceSortExt<T>: View<V = Seq<T>> {
    /// Sorts the slice, but might not preserve the order of equal elements.
    /// Unstable, in place, and *O*(*n* log *n*) in the worst case.
    fn const_sort_unstable(&mut self) where T: Ord
        ensures
            sorts_to(old(self)@, final(self)@),
    ;

    /// Sorts the slice with a comparator, but might not preserve the order
    /// of equal elements. The result is a permutation whatever `compare`
    /// answers; it is sorted by every strict weak order that the answers
    /// of `compare` agree with.
    fn const_sort_unstable_by<F: Fn(&T, &T) -> Ordering>(&mut self, compare: F)
        requires
            compare_callable::<T, Ordering, F>(compare),
        ensures
            permutation(old(self)@, final(self)@),
            forall|lt: spec_fn(T, T) -> bool|
                #[trigger] answers_ordering_by(compare, lt) ==> (size_of::<T>() > 0 ==> sorted_by(
                    lt,
                    final(self)@,
                )) && (
                sorted_by(lt, old(self)@) ==> final(self)@ == old(self)@),
    ;

    /// Sorts the slice by the keys that `f` gives, calling `f` on every
    /// comparison, but might not preserve the order of equal elements.
    fn const_sort_unstable_by_key<K: Ord, F: Fn(&T) -> K>(&mut self, f: F)
        requires
            key_callable::<T, K, F>(f),
        ensures
            permutation(old(self)@, final(self)@),
            forall|lt: spec_fn(T, T) -> bool|
                #[trigger] keys_order_by(f, lt) ==> (size_of::<T>() > 0 ==> sorted_by(lt, final(self)@)) && (sorted_by(
                    lt,
                    old(self)@,
                ) ==> final(self)@ == old(self)@),
    ;

    /// Reorders the slice so that the element at `index` is at its sorted
    /// position, and returns the elements before it, that element, and the
    /// elements after it. Fails when `index` is not a position of the slice.
    fn const_select_nth_unstable(&mut self, index: usize) -> (r: Result<
        (&mut [T], &mut T, &mut [T]),
        IndexOutOfBounds,
    >) where T: Ord
        ensures
            r is Err <==> index >= old(self)@.len(),
            r is Err ==> r->Err_0 == (IndexOutOfBounds { index, len: old(self)@.len() as usize })
                && final(self)@ == old(self)@,
            r is Ok ==> {
                let (left, nth, right) = r->Ok_0;
                &&& left@.len() == index
                &&& permutation(old(self)@, left@ + seq![*nth] + right@)
                &&& obeys_cmp::<T>() ==> selected(
                    ord_less::<T>(),
                    left@ + seq![*nth] + right@,
                    index as int,
                )
                &&& final(self)@ == final(r->Ok_0.0)@ + seq![*final(r->Ok_0.1)] + final(r->Ok_0.2)@
            },
    ;

    /// Reorders the slice with a comparator so that the element at `index`
    /// is at its sorted position, and returns the elements before it, that
    /// element, and the elements after it. Fails when `index` is not a
    /// position of the slice.
    fn const_select_nth_unstable_by<F: Fn(&T, &T) -> Ordering>(
        &mut self,
        index: usize,
        compare: F,
    ) -> (r: Result<(&mut [T], &mut T, &mut [T]), IndexOutOfBounds>)
        requires
            compare_callable::<T, Ordering, F>(compare),
        ensures
            r is Err <==> index >= old(self)@.len(),
            r is Err ==> r->Err_0 == (IndexOutOfBounds { index, len: old(self)@.len() as usize })
                && final(self)@ == old(self)@,
            r is Ok ==> {
                let (left, nth, right) = r->Ok_0;
                &&& left@.len() == index
                &&& permutation(old(self)@, left@ + seq![*nth] + right@)
                &&& forall|lt: spec_fn(T, T) -> bool|
                    #[trigger] answers_ordering_by(compare, lt) ==> selected(
                        lt,
                        left@ + seq![*nth] + right@,
                        index as int,
                    )
                &&& final(self)@ == final(r->Ok_0.0)@ + seq![*final(r->Ok_0.1)] + final(r->Ok_0.2)@
            },
    ;

    /// Reorders the slice by the keys that `f` gives so that the element at
    /// `index` is at its sorted position, and returns the elements before
    /// it, that element, and the elements after it. Fails when `index` is
    /// not a position of the slice.
    fn const_select_nth_unstable_by_key<K: Ord, F: Fn(&T) -> K>(
        &mut self,
        index: usize,
        f: F,
    ) -> (r: Result<(&mut [T], &mut T, &mut [T]), IndexOutOfBounds>)
        requires
            key_callable::<T, K, F>(f),
        ensures
            r is Err <==> index >= old(self)@.len(),
            r is Err ==> r->Err_0 == (IndexOutOfBounds { index, len: old(self)@.len() as usize })
                && final(self)@ == old(self)@,
            r is Ok ==> {
                let (left, nth, right) = r->Ok_0;
                &&& left@.len() == index
                &&& permutation(old(self)@, left@ + seq![*nth] + right@)
                &&& forall|lt: spec_fn(T, T) -> bool|
                    #[trigger] keys_order_by(f, lt) ==> selected(lt, left@ + seq![*nth] + right@, index as int)
                &&& final(self)@ == final(r->Ok_0.0)@ + seq![*final(r->Ok_0.1)] + final(r->Ok_0.2)@
            },
    ;

    /// Checks that each element is less than or equal to the next. A slice
    /// of zero or one element is sorted; a pair that cannot be compared is
    /// not in order.
    fn const_is_sorted(&self) -> (r: bool) where T: PartialOrd
        ensures
            T::obeys_partial_cmp_spec() ==> (r <==> forall|i: int|
                #![trigger self@[i]]
                1 <= i < self@.len() ==> in_order(self@[i - 1], self@[i])),
    ;

    /// Checks with a comparator that each element is in order with the
    /// next: `compare` answers `Some(Less)` or `Some(Equal)` for each pair.
    fn const_is_sorted_by<F: Fn(&T, &T) -> Option<Ordering>>(&self, compare: F) -> (r: bool)
        requires
            compare_callable::<T, Option<Ordering>, F>(compare),
        ensures
            r ==> forall|i: int|
                #![trigger self@[i]]
                1 <= i < self@.len() ==> answered(compare, self@[i - 1], self@[i], true),
            !r ==> exists|i: int|
                #![trigger self@[i]]
                1 <= i < self@.len() && answered(compare, self@[i - 1], self@[i], false),
    ;

    /// Checks that the key of each element is less than or equal to the key
    /// of the next.
    fn const_is_sorted_by_key<F: Fn(&T) -> K, K: PartialOrd>(&self, f: F) -> (r: bool)
        requires
            key_callable::<T, K, F>(f),
        ensures
            K::obeys_partial_cmp_spec() && r ==> forall|i: int|
                #![trigger self@[i]]
                1 <= i < self@.len() ==> keys_answered(f, self@[i - 1], self@[i], true),
            K::obeys_partial_cmp_spec() && !r ==> exists|i: int|
                #![trigger self@[i]]
                1 <= i < self@.len() && keys_answered(f, self@[i - 1], self@[i], false),
    ;
}

impl<T> ConstSliceSortExt<T> for [T] {
    fn const_sort_unstable(&mut self) where T: Ord {
        let is_less = |a: &T, b: &T| -> (r: bool)
            ensures
                T::obeys_partial_cmp_spec() ==> r == a.is_lt(b),
            { a < b };
        proof {
            if obeys_cmp::<T>() {
                lemma_ord_strict_weak_order::<T>();
                assert(answers_by(is_less, ord_less::<T>()));
            }
        }
        quicksort(self, &is_less);
    }

    fn const_sort_unstable_by<F: Fn(&T, &T) -> Ordering>(&mut self, compare: F) {
        let cmp = &compare;
        let is_less = |a: &T, b: &T| -> (r: bool)
            ensures
                exists|o: Ordering| call_ensures(*cmp, (a, b), o) && r == (o == Ordering::Less),
            { matches!(cmp(a, b), Ordering::Less) };
        proof {
            assert forall|lt: spec_fn(T, T) -> bool| #[trigger] answers_ordering_by(compare, lt) implies answers_by(
                is_less,
                lt,
            ) by {}
        }
        quicksort(self, &is_less);
    }

    fn const_sort_unstable_by_key<K: Ord, F: Fn(&T) -> K>(&mut self, f: F) {
        let key = &f;
        let is_less = |a: &T, b: &T| -> (r: bool)
            ensures
                exists|ka: K, kb: K|
                    call_ensures(*key, (a,), ka) && call_ensures(*key, (b,), kb) && (
                    K::obeys_partial_cmp_spec() ==> r == ka.is_lt(&kb)),
            { key(a).lt(&key(b)) };
        proof {
            assert forall|lt: spec_fn(T, T) -> bool| #[trigger] keys_order_by(f, lt) implies answers_by(
                is_less,
                lt,
            ) by {}
        }
        quicksort(self, &is_less);
    }

    fn const_select_nth_unstable(&mut self, index: usize) -> (r: Result<
        (&mut [T], &mut T, &mut [T]),
        IndexOutOfBounds,
    >) where T: Ord {
        let is_less = |a: &T, b: &T| -> (r: bool)
            ensures
                T::obeys_partial_cmp_spec() ==> r == a.is_lt(b),
            { a < b };
        proof {
            if obeys_cmp::<T>() {
                lemma_ord_strict_weak_order::<T>();
                assert(answers_by(is_less, ord_less::<T>()));
            }
        }
        partition_at_index(self, index, &is_less)
    }

    fn const_select_nth_unstable_by<F: Fn(&T, &T) -> Ordering>(
        &mut self,
        index: usize,
        compare: F,
    ) -> (r: Result<(&mut [T], &mut T, &mut [T]), IndexOutOfBounds>) {
        let cmp = &compare;
        let is_less = |a: &T, b: &T| -> (r: bool)
            ensures
                exists|o: Ordering| call_ensures(*cmp, (a, b), o) && r == (o == Ordering::Less),
            { matches!(cmp(a, b), Ordering::Less) };
        proof {
            assert forall|lt: spec_fn(T, T) -> bool| #[trigger] answers_ordering_by(compare, lt) implies answers_by(
                is_less,
                lt,
            ) by {}
        }
        partition_at_index(self, index, &is_less)
    }

    fn const_select_nth_unstable_by_key<K: Ord, F: Fn(&T) -> K>(
        &mut self,
        index: usize,
        f: F,
    ) -> (r: Result<(&mut [T], &mut T, &mut [T]), IndexOutOfBounds>) {
        let key = &f;
        let is_less = |a: &T, b: &T| -> (r: bool)
            ensures
                exists|ka: K, kb: K|
                    call_ensures(*key, (a,), ka) && call_ensures(*key, (b,), kb) && (
                    K::obeys_partial_cmp_spec() ==> r == ka.is_lt(&kb)),
            { key(a).lt(&key(b)) };
        proof {
            assert forall|lt: spec_fn(T, T) -> bool| #[trigger] keys_order_by(f, lt) implies answers_by(
                is_less,
                lt,
            ) by {}
        }
        partition_at_index(self, index, &is_less)
    }

    fn const_is_sorted(&self) -> (r: bool) where T: PartialOrd {
        let compare = |a: &T, b: &T| -> (o: Option<Ordering>)
            ensures
                T::obeys_partial_cmp_spec() ==> o == a.partial_cmp_spec(b),
            { a.partial_cmp(b) };
        let r = self.const_is_sorted_by(compare);
        proof {
            if T::obeys_partial_cmp_spec() {
                if r {
                    assert forall|i: int| 1 <= i < self@.len() implies #[trigger] in_order(
                        self@[i - 1],
                        self@[i],
                    ) by {
                        assert(answered(compare, self@[i - 1], self@[i], true));
                    }
                } else {
                    let i = choose|i: int|
                        1 <= i < self@.len() && #[trigger] answered(compare, self@[i - 1], self@[i], false);
                    assert(!in_order(self@[i - 1], self@[i]));
                }
            }
        }
        r
    }

    fn const_is_sorted_by<F: Fn(&T, &T) -> Option<Ordering>>(&self, compare: F) -> (r: bool) {
        let mut i: usize = 1;
        while i < self.len()
            invariant
                compare_callable::<T, Option<Ordering>, F>(compare),
                1 <= i,
                forall|j: int| 1 <= j < i && j < self@.len() ==> #[trigger] answered(compare, self@[j - 1], self@[j], true),
            decreases self@.len() - i,
        {
            let ord_opt = compare(&self[i - 1], &self[i]);
            match ord_opt {
                Some(Ordering::Less) | Some(Ordering::Equal) => {},
                _ => {
                    proof {
                        assert(answered(compare, self@[i - 1], self@[i as int], false));
                    }
                    return false;
                },
            }
            proof {
                assert(answered(compare, self@[i - 1], self@[i as int], true));
            }
            i += 1;
        }
        true
    }

    fn const_is_sorted_by_key<F: Fn(&T) -> K, K: PartialOrd>(&self, f: F) -> (r: bool) {
        let key = &f;
        let compare = |a: &T, b: &T| -> (o: Option<Ordering>)
            ensures
                exists|ka: K, kb: K|
                    #![trigger call_ensures(*key, (a,), ka), call_ensures(*key, (b,), kb)]
                    call_ensures(*key, (a,), ka) && call_ensures(*key, (b,), kb) && (
                    K::obeys_partial_cmp_spec() ==> o == ka.partial_cmp_spec(&kb)),
            { key(a).partial_cmp(&key(b)) };
        let r = self.const_is_sorted_by(compare);
        proof {
            if !K::obeys_partial_cmp_spec() {
            } else if r {
                assert forall|i: int| #![trigger self@[i]] 1 <= i < self@.len() implies keys_answered(
                    f,
                    self@[i - 1],
                    self@[i],
                    true,
                ) by {
                    lemma_keys_answered(f, compare, self@[i - 1], self@[i], true);
                }
            } else {
                let i = choose|i: int|
                    #![trigger self@[i]]
                    1 <= i < self@.len() && answered(compare, self@[i - 1], self@[i], false);
                lemma_keys_answered(f, compare, self@[i - 1], self@[i], false);
            }
        }
        r
    }
}

} // verus!
