//! A plain recursive quicksort of slices of totally ordered elements.
use vstd::prelude::*;
use vstd::laws_cmp::obeys_cmp;
use crate::comparators::{lemma_ord_strict_weak_order, ord_less};
use crate::model::{
    answers_by, lemma_asym, lemma_less_le, lemma_permutation_concat, lemma_permutation_forall,
    lemma_permutation_len, lemma_sorted_concat3, less, not_less, permutation, sorted_by, swap,
};
use crate::quicksort::const_pred_lt;

verus! {

/// Sorting a slice in place by recursive partitioning.
pub trait SliceConstUnstableSortable<T: Ord>: View<V = Seq<T>> {
    /// Sorts the slice.
    fn const_sort_unstable(&mut self)
        ensures
            permutation(old(self)@, final(self)@),
            obeys_cmp::<T>() ==> sorted_by(ord_less::<T>(), final(self)@),
    ;
}

impl<T: Ord> SliceConstUnstableSortable<T> for [T] {
    fn const_sort_unstable(&mut self) {
        sort_by_partitions(self);
    }
}

/// Partitions `inp` around its middle element: the elements less than it,
/// then that element, then the others. Returns the position of that
/// element.
fn partition<T: Ord>(inp: &mut [T]) -> (p: usize)
    requires
        old(inp)@.len() > 1,
    ensures
        p < final(inp)@.len(),
        permutation(old(inp)@, final(inp)@),
        forall|k: int| 0 <= k < p ==> less(const_pred_lt::<T>, #[trigger] final(inp)@[k], final(inp)@[p as int]),
        forall|k: int|
            p < k < final(inp)@.len() ==> not_less(
                const_pred_lt::<T>,
                #[trigger] final(inp)@[k],
                final(inp)@[p as int],
            ),
{
    let ghost f = const_pred_lt::<T>;
    let len = inp.len();
    let last = len - 1;
    // Move the middle element out of the way, to the end.
    swap(inp, len / 2, last);
    let mut store: usize = 0;
    let mut i: usize = 0;
    while i < last
        invariant
            f == const_pred_lt::<T>,
            inp@.len() == len,
            last == len - 1,
            store <= i <= last,
            permutation(old(inp)@, inp@),
            forall|k: int| 0 <= k < store ==> less(f, #[trigger] inp@[k], inp@[last as int]),
            forall|k: int| store <= k < i ==> not_less(f, #[trigger] inp@[k], inp@[last as int]),
        decreases last - i,
    {
        let ghost s = inp@;
        if const_pred_lt(&inp[i], &inp[last]) {
            swap(inp, i, store);
            proof {
                assert forall|k: int| 0 <= k < store + 1 implies less(f, #[trigger] inp@[k], inp@[last as int]) by {
                    if k < store {
                        assert(inp@[k] == s[k]);
                    }
                }
                assert forall|k: int| store + 1 <= k < i + 1 implies not_less(f, #[trigger] inp@[k], inp@[last as int]) by {
                    if k == i {
                        assert(inp@[k] == s[store as int]);
                    } else {
                        assert(inp@[k] == s[k]);
                    }
                }
            }
            store += 1;
        } else {
            proof {
                assert(not_less(f, s[i as int], s[last as int]));
            }
        }
        i += 1;
    }
    // Put the middle element between the two parts.
    let ghost s = inp@;
    swap(inp, store, last);
    proof {
        assert forall|k: int| 0 <= k < store implies less(f, #[trigger] inp@[k], inp@[store as int]) by {
            assert(inp@[k] == s[k]);
        }
        assert forall|k: int| store < k < len implies not_less(f, #[trigger] inp@[k], inp@[store as int]) by {
            if k == last {
                assert(inp@[k] == s[store as int]);
            } else {
                assert(inp@[k] == s[k]);
            }
        }
    }
    store
}

/// Sorts `v` by partitioning it around its middle element and sorting both
/// sides.
fn sort_by_partitions<T: Ord>(v: &mut [T])
    ensures
        permutation(old(v)@, final(v)@),
        obeys_cmp::<T>() ==> sorted_by(ord_less::<T>(), final(v)@),
    decreases old(v)@.len(),
{
    let ghost f = const_pred_lt::<T>;
    let ghost lt = ord_less::<T>();
    if v.len() <= 1 {
        return;
    }
    let p = partition(v);
    let ghost s = v@;
    proof {
        lemma_permutation_len(old(v)@, s);
    }
    let ghost mut left_out: Seq<T> = Seq::empty();
    let ghost mut right_out: Seq<T> = Seq::empty();
    let ghost mut mid_out: Seq<T> = Seq::empty();
    {
        let (left, right) = v.split_at_mut(p);
        let (pivot, right) = right.split_at_mut(1);
        let ghost l0 = left@;
        let ghost r0 = right@;
        sort_by_partitions(left);
        sort_by_partitions(right);
        proof {
            left_out = left@;
            right_out = right@;
            mid_out = pivot@;
            lemma_permutation_len(l0, left@);
            lemma_permutation_len(r0, right@);
            assert(s =~= l0 + pivot@ + r0);
            lemma_permutation_concat(l0, left@, pivot@, pivot@);
            lemma_permutation_concat(l0 + pivot@, left@ + pivot@, r0, right@);
            let pv = s[p as int];
            assert(pivot@ =~= seq![pv]);
            if obeys_cmp::<T>() {
                lemma_ord_strict_weak_order::<T>();
                assert(answers_by(f, lt));
                let below = |x: T| less(f, x, pv);
                assert forall|k: int| 0 <= k < l0.len() implies #[trigger] below(l0[k]) by {
                    assert(l0[k] == s[k]);
                }
                lemma_permutation_forall(l0, left@, below);
                let above = |x: T| not_less(f, x, pv);
                assert forall|k: int| 0 <= k < r0.len() implies #[trigger] above(r0[k]) by {
                    assert(r0[k] == s[p + 1 + k]);
                }
                lemma_permutation_forall(r0, right@, above);
                let a = left@;
                let b = right@;
                assert forall|i: int, j: int| 0 <= i < a.len() && 0 <= j < 1 implies !lt(
                    #[trigger] pivot@[j],
                    #[trigger] a[i],
                ) by {
                    assert(below(a[i]));
                    lemma_asym(lt, a[i], pv);
                }
                assert forall|i: int, j: int| 0 <= i < 1 && 0 <= j < b.len() implies !lt(
                    #[trigger] b[j],
                    #[trigger] pivot@[i],
                ) by {
                    assert(above(b[j]));
                }
                assert forall|i: int, j: int| 0 <= i < a.len() && 0 <= j < b.len() implies !lt(
                    #[trigger] b[j],
                    #[trigger] a[i],
                ) by {
                    assert(below(a[i]));
                    assert(above(b[j]));
                    if lt(b[j], a[i]) {
                        lemma_asym(lt, a[i], pv);
                        lemma_less_le(lt, b[j], a[i], pv);
                    }
                }
                lemma_sorted_concat3(lt, a, pivot@, b);
            }
        }
    }
    proof {
        assert(v@ == left_out + mid_out + right_out);
    }
}

} // verus!
