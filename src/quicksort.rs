//! The pattern-defeating quicksort driver.
use vstd::prelude::*;
use vstd::layout::size_of;
use vstd::arithmetic::power2::{lemma_pow2_unfold, pow2};
use vstd::laws_cmp::obeys_cmp;
use vstd::std_specs::cmp::{PartialOrdIs, PartialOrdSpec};
use crate::comparators::{lemma_ord_strict_weak_order, ord_less};
use crate::heap::heapsort;
use crate::insertion::{insertion_sort, partial_insertion_sort};
use crate::model::{
    all_le, answers_by, callable, lemma_all_le_concat, lemma_all_le_permutation, lemma_all_le_sub,
    lemma_asym, lemma_less_le, lemma_neg_trans, lemma_permutation_forall, lemma_permutation_len,
    lemma_permutation_middle, lemma_sorted_concat3, less, not_less, permutation, sorted_by,
};
use crate::partition::{partition, partition_equal};
use crate::pivot::{break_patterns, choose_pivot};

verus! {

/// Slices of up to this length get sorted using insertion sort.
pub const MAX_INSERTION: usize = 20;

/// The element a slice must not go before, if any.
pub open spec fn lower_bound<T>(pred: Option<&T>) -> Option<T> {
    match pred {
        Some(p) => Some(*p),
        None => None,
    }
}

/// No element of `s` was found to go before `p`.
pub open spec fn none_before<T, F: Fn(&T, &T) -> bool>(f: F, s: Seq<T>, p: Option<T>) -> bool {
    p is Some ==> forall|k: int| 0 <= k < s.len() ==> not_less(f, #[trigger] s[k], p->0)
}

/// The state of one sorting frame: the elements given are `pre + cur +
/// suf`, where `pre` and `suf` are done and `cur` is still to be sorted.
pub open spec fn frame<T, F: Fn(&T, &T) -> bool>(
    f: F,
    lt: spec_fn(T, T) -> bool,
    v0: Seq<T>,
    pre: Seq<T>,
    cur: Seq<T>,
    suf: Seq<T>,
    pred: Option<T>,
) -> bool {
    &&& permutation(v0, pre + cur + suf)
    &&& none_before(f, cur, pred)
    &&& answers_by(f, lt) ==> {
        &&& sorted_by(lt, pre)
        &&& sorted_by(lt, suf)
        &&& all_le(lt, pre, cur)
        &&& all_le(lt, cur, suf)
        &&& all_le(lt, pre, suf)
    }
}

/// A frame stays a frame when its middle part is permuted.
proof fn lemma_frame_permuted<T, F: Fn(&T, &T) -> bool>(
    f: F,
    lt: spec_fn(T, T) -> bool,
    v0: Seq<T>,
    pre: Seq<T>,
    cur: Seq<T>,
    cur2: Seq<T>,
    suf: Seq<T>,
    pred: Option<T>,
)
    requires
        frame(f, lt, v0, pre, cur, suf, pred),
        permutation(cur, cur2),
    ensures
        frame(f, lt, v0, pre, cur2, suf, pred),
{
    lemma_permutation_middle(pre, cur, cur2, suf);
    if pred is Some {
        let p = pred->0;
        let q = |x: T| not_less(f, x, p);
        assert forall|k: int| 0 <= k < cur.len() implies #[trigger] q(cur[k]) by {}
        lemma_permutation_forall(cur, cur2, q);
        assert forall|k: int| 0 <= k < cur2.len() implies not_less(f, #[trigger] cur2[k], p) by {
            assert(q(cur2[k]));
        }
    }
    if answers_by(f, lt) {
        lemma_all_le_permutation(lt, pre, pre, cur, cur2);
        lemma_all_le_permutation(lt, cur, cur2, suf, suf);
    }
}

/// A frame whose middle part is sorted is a sorted permutation.
proof fn lemma_frame_done<T, F: Fn(&T, &T) -> bool>(
    f: F,
    lt: spec_fn(T, T) -> bool,
    v0: Seq<T>,
    pre: Seq<T>,
    cur: Seq<T>,
    suf: Seq<T>,
    pred: Option<T>,
)
    requires
        frame(f, lt, v0, pre, cur, suf, pred),
        answers_by(f, lt) ==> sorted_by(lt, cur),
    ensures
        permutation(v0, pre + cur + suf),
        answers_by(f, lt) ==> sorted_by(lt, pre + cur + suf),
{
    if answers_by(f, lt) {
        lemma_sorted_concat3(lt, pre, cur, suf);
    }
}

/// A frame, for every order, whose middle part is sorted by every order that
/// the answers agree with is a permutation sorted by each such order.
proof fn lemma_frame_finish<T, F: Fn(&T, &T) -> bool>(
    f: F,
    v0: Seq<T>,
    pre: Seq<T>,
    cur: Seq<T>,
    suf: Seq<T>,
    pred: Option<T>,
)
    requires
        forall|lt: spec_fn(T, T) -> bool| #[trigger] frame(f, lt, v0, pre, cur, suf, pred),
        forall|lt: spec_fn(T, T) -> bool| #[trigger] answers_by(f, lt) ==> sorted_by(lt, cur),
    ensures
        permutation(v0, pre + cur + suf),
        forall|lt: spec_fn(T, T) -> bool|
            #[trigger] answers_by(f, lt) ==> sorted_by(lt, pre + cur + suf),
{
    let lt0 = |a: T, b: T| false;
    assert(frame(f, lt0, v0, pre, cur, suf, pred));
    assert forall|lt: spec_fn(T, T) -> bool| #[trigger] answers_by(f, lt) implies sorted_by(
        lt,
        pre + cur + suf,
    ) by {
        assert(frame(f, lt, v0, pre, cur, suf, pred));
        lemma_frame_done(f, lt, v0, pre, cur, suf, pred);
    }
}

/// After `cur` was split at `mid` into the elements equal to the pivot
/// `cur[0]` and the elements it goes before, the former join `pre`.
proof fn lemma_frame_equal<T, F: Fn(&T, &T) -> bool>(
    f: F,
    lt: spec_fn(T, T) -> bool,
    v0: Seq<T>,
    pre: Seq<T>,
    cur: Seq<T>,
    suf: Seq<T>,
    pred: Option<T>,
    mid: int,
)
    requires
        frame(f, lt, v0, pre, cur, suf, pred),
        pred is Some,
        1 <= mid <= cur.len(),
        not_less(f, pred->0, cur[0]),
        forall|k: int| 1 <= k < mid ==> not_less(f, cur[0], #[trigger] cur[k]),
        forall|k: int| mid <= k < cur.len() ==> less(f, cur[0], #[trigger] cur[k]),
    ensures
        frame(f, lt, v0, pre + cur.subrange(0, mid), cur.subrange(mid, cur.len() as int), suf, pred),
{
    let eq = cur.subrange(0, mid);
    let rest = cur.subrange(mid, cur.len() as int);
    let pv = cur[0];
    let p = pred->0;
    assert(cur =~= eq + rest);
    assert(pre + eq + rest + suf =~= pre + cur + suf);
    if answers_by(f, lt) {
        lemma_asym(lt, pv, pv);
        assert(!lt(p, pv));
        // The run of equal elements is sorted.
        assert forall|i: int, j: int| 0 <= i < j < eq.len() implies !lt(#[trigger] eq[j],
            #[trigger] eq[i],
        ) by {
            assert(not_less(f, cur[j], p));
            assert(!lt(eq[j], p));
            lemma_neg_trans(lt, eq[j], p, pv);
            if i > 0 {
                assert(not_less(f, pv, cur[i]));
            }
            assert(!lt(pv, eq[i]));
            lemma_neg_trans(lt, eq[j], pv, eq[i]);
        }
        // It is not after the rest.
        assert forall|i: int, j: int| 0 <= i < eq.len() && 0 <= j < rest.len() implies !lt(#[trigger] rest[j],
            #[trigger] eq[i],
        ) by {
            assert(less(f, pv, cur[mid + j]));
            if i > 0 {
                assert(not_less(f, pv, cur[i]));
            }
            assert(!lt(pv, eq[i]));
            if less(f, rest[j], eq[i]) {
                lemma_asym(lt, rest[j], eq[i]);
                lemma_less_le(lt, pv, rest[j], eq[i]);
            }
        }
        lemma_all_le_sub(lt, pre, cur, 0, pre.len() as int, 0, mid);
        lemma_all_le_sub(lt, pre, cur, 0, pre.len() as int, mid, cur.len() as int);
        lemma_all_le_sub(lt, cur, suf, 0, mid, 0, suf.len() as int);
        lemma_all_le_sub(lt, cur, suf, mid, cur.len() as int, 0, suf.len() as int);
        assert(pre.subrange(0, pre.len() as int) =~= pre);
        assert(suf.subrange(0, suf.len() as int) =~= suf);
        lemma_sorted_concat3(lt, pre, eq, Seq::empty());
        assert(pre + eq + Seq::<T>::empty() =~= pre + eq);
        lemma_all_le_concat(lt, pre, eq, rest);
        lemma_all_le_concat(lt, pre, eq, suf);
    }
}

/// After `cur` was partitioned around the pivot at `mid`, and its left part
/// was sorted into `left`, the left part and the pivot join `pre`.
proof fn lemma_frame_left<T, F: Fn(&T, &T) -> bool>(
    f: F,
    lt: spec_fn(T, T) -> bool,
    v0: Seq<T>,
    pre: Seq<T>,
    cur: Seq<T>,
    suf: Seq<T>,
    pred: Option<T>,
    mid: int,
    left: Seq<T>,
)
    requires
        frame(f, lt, v0, pre, cur, suf, pred),
        0 <= mid < cur.len(),
        forall|k: int| 0 <= k < mid ==> less(f, #[trigger] cur[k], cur[mid]),
        forall|k: int| mid < k < cur.len() ==> not_less(f, #[trigger] cur[k], cur[mid]),
        permutation(cur.subrange(0, mid), left),
        answers_by(f, lt) ==> sorted_by(lt, left),
    ensures
        frame(
            f,
            lt,
            v0,
            pre + left + seq![cur[mid]],
            cur.subrange(mid + 1, cur.len() as int),
            suf,
            Some(cur[mid]),
        ),
{
    let l0 = cur.subrange(0, mid);
    let pv = cur[mid];
    let one = seq![pv];
    let right = cur.subrange(mid + 1, cur.len() as int);
    assert(cur =~= l0 + one + right);
    lemma_permutation_middle(pre, l0, left, one + right + suf);
    assert(pre + cur + suf =~= pre + l0 + (one + right + suf));
    assert(pre + left + (one + right + suf) =~= pre + left + one + right + suf);
    let below = |x: T| less(f, x, pv);
    assert forall|k: int| 0 <= k < l0.len() implies #[trigger] below(l0[k]) by {
        assert(l0[k] == cur[k]);
    }
    lemma_permutation_forall(l0, left, below);
    assert forall|k: int| 0 <= k < right.len() implies not_less(f, #[trigger] right[k], pv) by {
        assert(right[k] == cur[mid + 1 + k]);
    }
    if answers_by(f, lt) {
        lemma_all_le_sub(lt, pre, cur, 0, pre.len() as int, 0, mid);
        lemma_all_le_sub(lt, pre, cur, 0, pre.len() as int, mid, mid + 1);
        lemma_all_le_sub(lt, pre, cur, 0, pre.len() as int, mid + 1, cur.len() as int);
        lemma_all_le_sub(lt, cur, suf, 0, mid, 0, suf.len() as int);
        lemma_all_le_sub(lt, cur, suf, mid, mid + 1, 0, suf.len() as int);
        lemma_all_le_sub(lt, cur, suf, mid + 1, cur.len() as int, 0, suf.len() as int);
        assert(pre.subrange(0, pre.len() as int) =~= pre);
        assert(suf.subrange(0, suf.len() as int) =~= suf);
        assert(cur.subrange(mid, mid + 1) =~= one);
        lemma_all_le_permutation(lt, pre, pre, l0, left);
        lemma_all_le_permutation(lt, l0, left, suf, suf);
        assert forall|i: int, j: int| 0 <= i < left.len() && 0 <= j < 1 implies !lt(#[trigger] one[j],
            #[trigger] left[i],
        ) by {
            assert(below(left[i]));
            lemma_asym(lt, left[i], pv);
        }
        assert forall|i: int, j: int| 0 <= i < left.len() && 0 <= j < right.len() implies !lt(#[trigger] right[j],
            #[trigger] left[i],
        ) by {
            assert(below(left[i]));
            assert(not_less(f, right[j], pv));
            if less(f, right[j], left[i]) {
                lemma_asym(lt, left[i], pv);
                lemma_less_le(lt, right[j], left[i], pv);
            }
        }
        assert forall|i: int, j: int| 0 <= i < 1 && 0 <= j < right.len() implies !lt(#[trigger] right[j],
            #[trigger] one[i],
        ) by {
            assert(not_less(f, right[j], pv));
        }
        assert(sorted_by(lt, one));
        lemma_sorted_concat3(lt, pre, left, one);
        lemma_all_le_concat(lt, pre, left, right);
        lemma_all_le_concat(lt, pre + left, one, right);
        lemma_all_le_concat(lt, pre, left, suf);
        lemma_all_le_concat(lt, pre + left, one, suf);
    }
}

/// After `cur` was partitioned around the pivot at `mid`, and its right part
/// was sorted into `right`, the pivot and the right part join `suf`.
proof fn lemma_frame_right<T, F: Fn(&T, &T) -> bool>(
    f: F,
    lt: spec_fn(T, T) -> bool,
    v0: Seq<T>,
    pre: Seq<T>,
    cur: Seq<T>,
    suf: Seq<T>,
    pred: Option<T>,
    mid: int,
    right: Seq<T>,
)
    requires
        frame(f, lt, v0, pre, cur, suf, pred),
        0 <= mid < cur.len(),
        forall|k: int| 0 <= k < mid ==> less(f, #[trigger] cur[k], cur[mid]),
        forall|k: int| mid < k < cur.len() ==> not_less(f, #[trigger] cur[k], cur[mid]),
        permutation(cur.subrange(mid + 1, cur.len() as int), right),
        answers_by(f, lt) ==> sorted_by(lt, right),
    ensures
        frame(f, lt, v0, pre, cur.subrange(0, mid), seq![cur[mid]] + right + suf, pred),
{
    let left = cur.subrange(0, mid);
    let pv = cur[mid];
    let one = seq![pv];
    let r0 = cur.subrange(mid + 1, cur.len() as int);
    assert(cur =~= left + one + r0);
    lemma_permutation_middle(pre + left + one, r0, right, suf);
    assert(pre + cur + suf =~= pre + left + one + r0 + suf);
    assert(pre + left + one + right + suf =~= pre + left + (one + right + suf));
    if pred is Some {
        assert forall|k: int| 0 <= k < left.len() implies not_less(f, #[trigger] left[k], pred->0) by {
            assert(left[k] == cur[k]);
        }
    }
    let nl = |x: T| not_less(f, x, pv);
    assert forall|k: int| 0 <= k < r0.len() implies #[trigger] nl(r0[k]) by {
        assert(r0[k] == cur[mid + 1 + k]);
    }
    lemma_permutation_forall(r0, right, nl);
    if answers_by(f, lt) {
        lemma_all_le_sub(lt, pre, cur, 0, pre.len() as int, 0, mid);
        lemma_all_le_sub(lt, pre, cur, 0, pre.len() as int, mid, mid + 1);
        lemma_all_le_sub(lt, pre, cur, 0, pre.len() as int, mid + 1, cur.len() as int);
        lemma_all_le_sub(lt, cur, suf, 0, mid, 0, suf.len() as int);
        lemma_all_le_sub(lt, cur, suf, mid, mid + 1, 0, suf.len() as int);
        lemma_all_le_sub(lt, cur, suf, mid + 1, cur.len() as int, 0, suf.len() as int);
        assert(pre.subrange(0, pre.len() as int) =~= pre);
        assert(suf.subrange(0, suf.len() as int) =~= suf);
        assert(cur.subrange(mid, mid + 1) =~= one);
        lemma_all_le_permutation(lt, pre, pre, r0, right);
        lemma_all_le_permutation(lt, r0, right, suf, suf);
        assert forall|i: int, j: int| 0 <= i < 1 && 0 <= j < right.len() implies !lt(#[trigger] right[j],
            #[trigger] one[i],
        ) by {
            assert(nl(right[j]));
        }
        assert forall|i: int, j: int| 0 <= i < left.len() && 0 <= j < 1 implies !lt(#[trigger] one[j],
            #[trigger] left[i],
        ) by {
            assert(less(f, cur[i], pv));
            lemma_asym(lt, left[i], pv);
        }
        assert forall|i: int, j: int| 0 <= i < left.len() && 0 <= j < right.len() implies !lt(#[trigger] right[j],
            #[trigger] left[i],
        ) by {
            assert(less(f, cur[i], pv));
            assert(nl(right[j]));
            if less(f, right[j], left[i]) {
                lemma_asym(lt, left[i], pv);
                lemma_less_le(lt, right[j], left[i], pv);
            }
        }
        assert(sorted_by(lt, one));
        lemma_sorted_concat3(lt, one, right, suf);
        lemma_all_le_concat(lt, one, right, suf);
        lemma_all_le_concat(lt, left, one, right);
        lemma_all_le_concat(lt, left, one + right, suf);
        lemma_all_le_concat(lt, pre, one, right);
        lemma_all_le_concat(lt, pre, one + right, suf);
        assert(one + right + suf =~= one + (right + suf));
        lemma_all_le_concat(lt, one, right, suf);
    }
}

/// A part at most half of a frame of `b <= c` elements fits one level
/// deeper.
proof fn lemma_depth(d: nat, a: nat, b: nat, c: nat, n: nat)
    requires
        pow2(d) * c <= n,
        b <= c,
        2 * a <= b,
    ensures
        pow2(d + 1) * a <= n,
{
    lemma_pow2_unfold(d + 1);
    assert(pow2(d + 1) * a == pow2(d) * (2 * a)) by (nonlinear_arith)
        requires
            pow2(d + 1) == 2 * pow2(d),
    ;
    assert(pow2(d) * (2 * a) <= pow2(d) * c) by (nonlinear_arith)
        requires
            2 * a <= c,
    ;
}

/// A frame of `len` elements sits `depth` calls deep under a call on `n`
/// elements: each level of recursion at least halves the room.
pub open spec fn fits_at_depth(depth: nat, len: nat, n: nat) -> bool {
    pow2(depth) * len <= n
}

/// Sorts `v`. `pred`, when given, is an element that no element of `v` goes
/// before. `limit` is the number of imbalanced partitions allowed before
/// switching to heapsort. The frame sits `depth` calls deep under a call on
/// `n` elements, and recursion goes into the shorter side only, so `depth`
/// stays within `log2(n)`.
#[verifier::loop_isolation(false)]
fn recurse<'a, T, F: Fn(&T, &T) -> bool>(
    v: &'a mut [T],
    is_less: &F,
    pred: Option<&'a T>,
    limit: u32,
    Ghost(depth): Ghost<nat>,
    Ghost(n): Ghost<nat>,
)
    requires
        callable::<T, F>(*is_less),
        none_before(*is_less, old(v)@, lower_bound(pred)),
        fits_at_depth(depth, old(v)@.len(), n),
    ensures
        permutation(old(v)@, final(v)@),
        forall|lt: spec_fn(T, T) -> bool|
            #[trigger] answers_by(*is_less, lt) ==> sorted_by(lt, final(v)@) && (sorted_by(lt, old(v)@)
                && (limit > 0 || old(v)@.len() <= MAX_INSERTION) ==> final(v)@ == old(v)@),
    decreases old(v)@.len(),
{
    let ghost f = *is_less;
    let ghost v0 = v@;
    let ghost limit0 = limit;
    let ghost fin = final(v)@;
    let ghost mut pre: Seq<T> = Seq::empty();
    let ghost mut suf: Seq<T> = Seq::empty();
    let mut v = v;
    let mut pred = pred;
    let mut limit = limit;

    // True if the last partitioning was reasonably balanced.
    let mut was_balanced = true;
    // True if the last partitioning didn't shuffle elements (the slice was
    // already partitioned).
    let mut was_partitioned = true;

    proof {
        assert(pre + v@ + suf =~= v0);
        assert(pre + final(v)@ + suf =~= fin);
        assert forall|lt: spec_fn(T, T) -> bool| #[trigger] frame(f, lt, v0, pre, v@, suf, lower_bound(pred)) by {}
    }

    loop
        invariant
            f == *is_less,
            callable::<T, F>(*is_less),
            pre + final(v)@ + suf == fin,
            forall|lt: spec_fn(T, T) -> bool| #[trigger] frame(f, lt, v0, pre, v@, suf, lower_bound(pred)),
            v@.len() <= v0.len(),
            pow2(depth) * v0.len() <= n,
            forall|lt: spec_fn(T, T) -> bool|
                #[trigger] answers_by(f, lt) && sorted_by(lt, v0) && (limit0 > 0 || v0.len()
                    <= MAX_INSERTION) ==> pre == Seq::<T>::empty() && suf == Seq::<T>::empty() && v@
                    == v0 && was_balanced && was_partitioned && (limit > 0 || v@.len() <= MAX_INSERTION),
        decreases v@.len(),
    {
        let len = v.len();

        // Very short slices get sorted using insertion sort.
        if len <= MAX_INSERTION {
            let ghost c0 = v@;
            insertion_sort(v, is_less);
            proof {
                assert forall|lt: spec_fn(T, T) -> bool| #[trigger] frame(f, lt, v0, pre, v@, suf, lower_bound(pred)) by {
                    lemma_frame_permuted(f, lt, v0, pre, c0, v@, suf, lower_bound(pred));
                }
                lemma_frame_finish(f, v0, pre, v@, suf, lower_bound(pred));
                assert forall|lt: spec_fn(T, T) -> bool| #[trigger] answers_by(f, lt) && sorted_by(lt, v0)
                    && (limit0 > 0 || v0.len() <= MAX_INSERTION) implies pre + v@ + suf == v@ by {
                    assert(pre + v@ + suf =~= v@);
                }
            }
            return;
        }

        // If too many bad pivot choices were made, simply fall back to
        // heapsort in order to guarantee `O(n * log(n))` worst-case.
        if limit == 0 {
            let ghost c0 = v@;
            heapsort(v, is_less);
            proof {
                assert forall|lt: spec_fn(T, T) -> bool| #[trigger] frame(f, lt, v0, pre, v@, suf, lower_bound(pred)) by {
                    lemma_frame_permuted(f, lt, v0, pre, c0, v@, suf, lower_bound(pred));
                }
                lemma_frame_finish(f, v0, pre, v@, suf, lower_bound(pred));
            }
            return;
        }

        // If the last partitioning was imbalanced, try breaking patterns in
        // the slice by shuffling some elements around.
        if !was_balanced {
            let ghost c0 = v@;
            break_patterns(v);
            proof {
                assert forall|lt: spec_fn(T, T) -> bool| #[trigger] frame(f, lt, v0, pre, v@, suf, lower_bound(pred)) by {
                    lemma_frame_permuted(f, lt, v0, pre, c0, v@, suf, lower_bound(pred));
                }
            }
            limit -= 1;
        }

        // Choose a pivot and try guessing whether the slice is already
        // sorted.
        let ghost c0 = v@;
        let (pivot, likely_sorted) = choose_pivot(v, is_less);
        proof {
            assert forall|lt: spec_fn(T, T) -> bool| #[trigger] frame(f, lt, v0, pre, v@, suf, lower_bound(pred)) by {
                    lemma_frame_permuted(f, lt, v0, pre, c0, v@, suf, lower_bound(pred));
                }
        }

        // If the last partitioning was decently balanced and didn't shuffle
        // elements, and if pivot selection predicts the slice is likely
        // already sorted...
        if was_balanced && was_partitioned && likely_sorted {
            // Try identifying several out-of-order elements and shifting
            // them to correct positions. If the slice ends up being
            // completely sorted, we're done.
            let ghost c1 = v@;
            let done = partial_insertion_sort(v, is_less);
            proof {
                assert forall|lt: spec_fn(T, T) -> bool| #[trigger] frame(f, lt, v0, pre, v@, suf, lower_bound(pred)) by {
                    lemma_frame_permuted(f, lt, v0, pre, c1, v@, suf, lower_bound(pred));
                }
            }
            if done {
                proof {
                    assert forall|lt: spec_fn(T, T) -> bool| #[trigger] answers_by(f, lt) && sorted_by(
                        lt,
                        v0,
                    ) && (limit0 > 0 || v0.len() <= MAX_INSERTION) implies pre + v@ + suf == v@ by {
                        assert(pre + v@ + suf =~= v@);
                    }
                }
                proof {
                    lemma_frame_finish(f, v0, pre, v@, suf, lower_bound(pred));
                }
                return;
            }
        }
        proof {
            lemma_permutation_len(c0, v@);
        }

        // If the chosen pivot is equal to the predecessor, then it's the
        // smallest element in the slice. Partition the slice into elements
        // equal to and elements greater than the pivot.
        if let Some(p) = pred {
            if !is_less(p, &v[pivot]) {
                let ghost c2 = v@;
                let mid = partition_equal(v, pivot, is_less);
                proof {
                    assert forall|lt: spec_fn(T, T) -> bool| #[trigger] frame(f, lt, v0, pre, v@, suf, lower_bound(pred)) by {
                    lemma_frame_permuted(f, lt, v0, pre, c2, v@, suf, lower_bound(pred));
                }
                    assert forall|lt: spec_fn(T, T) -> bool| #[trigger] frame(
                        f,
                        lt,
                        v0,
                        pre + v@.subrange(0, mid as int),
                        v@.subrange(mid as int, v@.len() as int),
                        suf,
                        lower_bound(pred),
                    ) by {
                        lemma_frame_equal(f, lt, v0, pre, v@, suf, lower_bound(pred), mid as int);
                    }
                    lemma_permutation_len(c2, v@);
                }
                let ghost c3 = v@;
                // Continue sorting elements greater than the pivot.
                let (eq, rest) = v.split_at_mut(mid);
                proof {
                    pre = pre + c3.subrange(0, mid as int);
                    assert(pre + final(rest)@ + suf =~= fin);

                }
                v = rest;
                continue;
            }
        }

        // Partition the slice.
        let ghost c4 = v@;
        let (mid, was_p) = partition(v, pivot, is_less);
        proof {
            assert forall|lt: spec_fn(T, T) -> bool| #[trigger] frame(f, lt, v0, pre, v@, suf, lower_bound(pred)) by {
                    lemma_frame_permuted(f, lt, v0, pre, c4, v@, suf, lower_bound(pred));
                }
            lemma_permutation_len(c4, v@);
        }
        was_balanced = if mid < len - mid { mid } else { len - mid } >= len / 8;
        was_partitioned = was_p;

        // Split the slice into `left`, `pivot`, and `right`.
        let ghost c5 = v@;
        let (left, right) = v.split_at_mut(mid);
        let (pivot, right) = right.split_at_mut(1);
        let pivot: &'a [T] = pivot;
        let pivot = &pivot[0];
        proof {
            assert(c5.len() == len);
            assert(left@ == c5.subrange(0, mid as int));
            assert(right@ == c5.subrange(mid + 1, len as int));
            assert(*pivot == c5[mid as int]);
        }

        // Recurse into the shorter side only in order to minimize the total
        // number of recursive calls and consume less stack space. Then just
        // continue with the longer side (this is akin to tail recursion).
        if left.len() < right.len() {
            proof {
                assert(frame(f, |a: T, b: T| false, v0, pre, c5, suf, lower_bound(pred)));
                assert(none_before(f, left@, lower_bound(pred)));
                lemma_depth(depth, left@.len(), len as nat, v0.len(), n);
            }
            recurse(left, is_less, pred, limit, Ghost(depth + 1), Ghost(n));
            proof {
                assert forall|lt: spec_fn(T, T) -> bool| #[trigger] frame(
                    f,
                    lt,
                    v0,
                    pre + left@ + seq![c5[mid as int]],
                    c5.subrange(mid + 1, c5.len() as int),
                    suf,
                    Some(c5[mid as int]),
                ) by {
                    lemma_frame_left(f, lt, v0, pre, c5, suf, lower_bound(pred), mid as int, left@);
                }
                pre = pre + left@ + seq![c5[mid as int]];
                assert(pre + final(right)@ + suf =~= fin);
            }
            v = right;
            pred = Some(pivot);
        } else {
            proof {
                lemma_depth(depth, right@.len(), len as nat, v0.len(), n);
            }
            recurse(right, is_less, Some(pivot), limit, Ghost(depth + 1), Ghost(n));
            proof {
                assert forall|lt: spec_fn(T, T) -> bool| #[trigger] frame(
                    f,
                    lt,
                    v0,
                    pre,
                    c5.subrange(0, mid as int),
                    seq![c5[mid as int]] + right@ + suf,
                    lower_bound(pred),
                ) by {
                    lemma_frame_right(f, lt, v0, pre, c5, suf, lower_bound(pred), mid as int, right@);
                }
                suf = seq![c5[mid as int]] + right@ + suf;
                assert(pre + final(left)@ + suf =~= fin);
            }
            v = left;
        }
    }
}

/// Sorts `v` using pattern-defeating quicksort, which is *O*(*n* log *n*) in
/// the worst case. `is_less(a, b)` tells whether `a` goes strictly before
/// `b`. The result is a permutation of `v` whatever `is_less` answers; it is
/// sorted by every strict weak order that all answers of `is_less` agree
/// with, and a slice already sorted by such an order, or of zero-sized
/// elements, is left as it is.
pub fn const_quicksort<T, F: Fn(&T, &T) -> bool>(v: &mut [T], is_less: F)
    requires
        callable::<T, F>(is_less),
    ensures
        permutation(old(v)@, final(v)@),
        size_of::<T>() == 0 ==> final(v)@ == old(v)@,
        forall|lt: spec_fn(T, T) -> bool|
            #[trigger] answers_by(is_less, lt) ==> (size_of::<T>() > 0 ==> sorted_by(lt, final(v)@)) && (sorted_by(
                lt,
                old(v)@,
            ) ==> final(v)@ == old(v)@),
{
    quicksort(v, &is_less);
}

/// Sorts `v` using pattern-defeating quicksort. The result is a permutation
/// of `v`; it is sorted by every strict weak order that the answers of
/// `is_less` agree with, and left as it is when already sorted by one.
pub fn quicksort<T, F: Fn(&T, &T) -> bool>(v: &mut [T], is_less: &F)
    requires
        callable::<T, F>(*is_less),
    ensures
        permutation(old(v)@, final(v)@),
        size_of::<T>() == 0 ==> final(v)@ == old(v)@,
        forall|lt: spec_fn(T, T) -> bool|
            #[trigger] answers_by(*is_less, lt) ==> (size_of::<T>() > 0 ==> sorted_by(lt, final(v)@))
                && (sorted_by(lt, old(v)@) ==> final(v)@ == old(v)@),
{
    // Sorting has no meaningful behavior on zero-sized types.
    if core::mem::size_of::<T>() == 0 {
        return;
    }

    // Limit the number of imbalanced partitions to `floor(log2(len)) + 1`.
    let limit = bit_length(v.len());

    proof {
        vstd::arithmetic::power2::lemma2_to64();
        assert(pow2(0) * v@.len() <= v@.len());
    }
    recurse(v, is_less, None, limit, Ghost(0), Ghost(v@.len()));
}

/// The number of binary digits of `n`: `floor(log2(n)) + 1`, or zero for
/// zero.
pub fn bit_length(n: usize) -> (r: u32)
    ensures
        r as nat == bits_of(n as nat),
        r <= 64,
{
    proof {
        vstd::arithmetic::power2::lemma2_to64();
        lemma_bits_of_bound(n as nat, 64);
    }
    let mut m = n;
    let mut r: u32 = 0;
    while m > 0
        invariant
            bits_of(n as nat) == r + bits_of(m as nat),
            bits_of(n as nat) <= 64,
        decreases m,
    {
        m = m / 2;
        r = r + 1;
    }
    r
}

/// A number below `2^k` has at most `k` binary digits.
proof fn lemma_bits_of_bound(x: nat, k: nat)
    requires
        x < pow2(k),
    ensures
        bits_of(x) <= k,
    decreases k,
{
    if x > 0 {
        if k == 0 {
            vstd::arithmetic::power2::lemma2_to64();
        } else {
            lemma_pow2_unfold(k);
            lemma_bits_of_bound(x / 2, (k - 1) as nat);
        }
    }
}

/// The number of binary digits of `n`.
pub open spec fn bits_of(n: nat) -> nat
    decreases n,
{
    if n == 0 {
        0
    } else {
        1 + bits_of(n / 2)
    }
}

/// `a < b`.
pub fn const_pred_lt<T: Ord>(a: &T, b: &T) -> (r: bool)
    ensures
        T::obeys_partial_cmp_spec() ==> r == a.is_lt(b),
{
    a.lt(b)
}

/// Heapsort and quicksort as methods of slices of totally ordered elements.
pub trait ConstUnstableSortable<T: Ord>: View<V = Seq<T>> {
    /// Sorts the slice with heapsort.
    fn const_heapsort(&mut self)
        ensures
            permutation(old(self)@, final(self)@),
            obeys_cmp::<T>() ==> sorted_by(ord_less::<T>(), final(self)@),
    ;

    /// Sorts the slice with pattern-defeating quicksort; a slice of
    /// zero-sized elements is left as it is.
    fn const_quicksort(&mut self)
        ensures
            permutation(old(self)@, final(self)@),
            size_of::<T>() == 0 ==> final(self)@ == old(self)@,
            obeys_cmp::<T>() && size_of::<T>() > 0 ==> sorted_by(ord_less::<T>(), final(self)@),
            obeys_cmp::<T>() && sorted_by(ord_less::<T>(), old(self)@) ==> final(self)@ == old(
                self,
            )@,
    ;
}

impl<T: Ord> ConstUnstableSortable<T> for [T] {
    fn const_heapsort(&mut self) {
        proof {
            lemma_pred_lt_answers::<T>();
        }
        heapsort(self, &const_pred_lt);
    }

    fn const_quicksort(&mut self) {
        proof {
            lemma_pred_lt_answers::<T>();
        }
        quicksort(self, &const_pred_lt);
    }
}

/// `const_pred_lt` answers by the order of `<` when `T` obeys the laws of a
/// total order.
pub proof fn lemma_pred_lt_answers<T: Ord>()
    ensures
        callable::<T, _>(const_pred_lt::<T>),
        obeys_cmp::<T>() ==> answers_by(const_pred_lt::<T>, ord_less::<T>()),
{
    if obeys_cmp::<T>() {
        lemma_ord_strict_weak_order::<T>();
    }
}

} // verus!
