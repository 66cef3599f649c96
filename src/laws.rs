//! Properties of the sorting routines that relate several calls or several
//! orders, proved from their contracts.
use vstd::prelude::*;
use vstd::layout::size_of;
use core::cmp::Ordering;
use vstd::arithmetic::power2::pow2;
use vstd::laws_cmp::obeys_cmp;
use vstd::std_specs::cmp::OrdSpec;
use crate::comparators::{
    answers_ordering_by, in_order, lemma_not_less_in_order, lemma_ord_strict_weak_order,
    ord_greater, ord_less,
};
use crate::const_slice_sort_ext::sorts_to;
use crate::model::sorted_by;
use crate::quicksort::fits_at_depth;

verus! {

/// Sorting is idempotent: when `once` is what `const_sort_unstable` may leave
/// for `s`, and `twice` what it may leave for `once`, then `twice` is
/// `once`.
pub proof fn law_sort_idempotent<T: Ord>(s: Seq<T>, once: Seq<T>, twice: Seq<T>)
    requires
        obeys_cmp::<T>(),
        sorts_to(s, once),
        sorts_to(once, twice),
    ensures
        twice == once,
        sorts_to(s, twice),
{
}

/// Sorting elements that are not zero-sized with a comparator that answers
/// `b.cmp(a)` leaves them in non-increasing order: such a comparator agrees
/// with the order `>`, and what `const_sort_unstable_by` promises for every
/// order its comparator agrees with then makes each element not less than
/// the next ones.
pub proof fn law_reverse_comparator<T: Ord, F: Fn(&T, &T) -> Ordering>(compare: F, r: Seq<T>)
    requires
        obeys_cmp::<T>(),
        forall|a: T, b: T, o: Ordering| #[trigger] call_ensures(compare, (&a, &b), o) ==> o == b.cmp_spec(&a),
        size_of::<T>() > 0,
        forall|lt: spec_fn(T, T) -> bool|
            #[trigger] answers_ordering_by(compare, lt) ==> (size_of::<T>() > 0 ==> sorted_by(lt, r)),
    ensures
        answers_ordering_by(compare, ord_greater::<T>()),
        forall|i: int, j: int| 0 <= i < j < r.len() ==> in_order(#[trigger] r[j], #[trigger] r[i]),
{
    lemma_ord_strict_weak_order::<T>();
    lemma_cmp_spec_less::<T>();
    assert(answers_ordering_by(compare, ord_greater::<T>()));
    assert forall|i: int, j: int| 0 <= i < j < r.len() implies in_order(#[trigger] r[j], #[trigger] r[i]) by {
        assert(!ord_greater::<T>()(r[j], r[i]));
        lemma_not_less_in_order(r[i], r[j]);
    }
}

/// Under the laws of a total order, `cmp` answers `Less` exactly when `<`
/// holds.
proof fn lemma_cmp_spec_less<T: Ord>()
    requires
        obeys_cmp::<T>(),
    ensures
        forall|a: T, b: T| #[trigger] a.cmp_spec(&b) == Ordering::Less <==> ord_less::<T>()(a, b),
{
    reveal(vstd::laws_cmp::obeys_cmp_ord);
}

/// Recursion depth is logarithmic: the sort recurses only into the shorter
/// side of a partition, and each frame is called with `fits_at_depth(depth,
/// len, n)`, for its `len` elements `depth` calls deep under a call on `n`
/// elements. A frame that holds an element thus sits at most `log2(n)` calls
/// deep.
pub proof fn law_depth_bound(depth: nat, len: nat, n: nat)
    requires
        fits_at_depth(depth, len, n),
        len >= 1,
    ensures
        pow2(depth) <= n,
{
    assert(pow2(depth) * 1 <= pow2(depth) * len) by (nonlinear_arith)
        requires
            len >= 1,
    ;
}

} // verus!
