//! Selection: moving the element of a given rank to its sorted position,
//! with the smaller elements before it and the larger ones after it.
use vstd::prelude::*;
use crate::heap::heapsort;
use crate::insertion::insertion_sort;
use crate::model::{
    all_le, answers_by, callable, lemma_all_le_concat, lemma_all_le_permutation, lemma_all_le_sub,
    lemma_asym, lemma_less_le, lemma_neg_trans, lemma_permutation_forall, lemma_permutation_len,
    lemma_permutation_middle, less, not_less, permutation, sorted_by, swap,
};
use crate::partition::{partition, partition_equal};
use crate::pivot::{break_patterns, choose_pivot};
use crate::quicksort::{bit_length, lower_bound, none_before};

verus! {

/// Slices of up to this length are simply sorted while selecting.
pub const SELECT_MAX_INSERTION: usize = 10;

/// `s[i]` is at its sorted position: nothing before it goes after anything
/// from it on, and nothing up to it goes after anything past it.
pub open spec fn selected<T>(lt: spec_fn(T, T) -> bool, s: Seq<T>, i: int) -> bool {
    &&& all_le(lt, s.subrange(0, i), s.subrange(i, s.len() as int))
    &&& all_le(lt, s.subrange(0, i + 1), s.subrange(i + 1, s.len() as int))
}

/// The state of the selection loop: the elements given are `pre + cur +
/// suf`, the wanted position lies in `cur`, and `pre`, `cur`, `suf` come in
/// order.
pub open spec fn select_frame<T, F: Fn(&T, &T) -> bool>(
    f: F,
    lt: spec_fn(T, T) -> bool,
    v0: Seq<T>,
    pre: Seq<T>,
    cur: Seq<T>,
    suf: Seq<T>,
    pred: Option<T>,
    index: int,
) -> bool {
    &&& permutation(v0, pre + cur + suf)
    &&& none_before(f, cur, pred)
    &&& pre.len() <= index < pre.len() + cur.len()
    &&& answers_by(f, lt) ==> {
        &&& all_le(lt, pre, cur)
        &&& all_le(lt, cur, suf)
        &&& all_le(lt, pre, suf)
    }
}

/// A selection frame stays one when its middle part is permuted.
proof fn lemma_select_permuted<T, F: Fn(&T, &T) -> bool>(
    f: F,
    lt: spec_fn(T, T) -> bool,
    v0: Seq<T>,
    pre: Seq<T>,
    cur: Seq<T>,
    cur2: Seq<T>,
    suf: Seq<T>,
    pred: Option<T>,
    index: int,
)
    requires
        select_frame(f, lt, v0, pre, cur, suf, pred, index),
        permutation(cur, cur2),
    ensures
        select_frame(f, lt, v0, pre, cur2, suf, pred, index),
        cur2.len() == cur.len(),
{
    lemma_permutation_len(cur, cur2);
    lemma_permutation_middle(pre, cur, cur2, suf);
    if pred is Some {
        let p = pred->0;
        let q = |x: T| not_less(f, x, p);
        assert forall|k: int| 0 <= k < cur.len() implies #[trigger] q(cur[k]) by {}
        lemma_permutation_forall(cur, cur2, q);
        assert forall|k: int| 0 <= k < cur2.len() implies not_less(f, #[trigger] cur2[k], p) by {
            assert(q(cur2[k]));
        }
    }
    if answers_by(f, lt) {
        lemma_all_le_permutation(lt, pre, pre, cur, cur2);
        lemma_all_le_permutation(lt, cur, cur2, suf, suf);
    }
}

/// A position selected in the middle part of a frame is selected in the
/// whole.
proof fn lemma_select_done<T, F: Fn(&T, &T) -> bool>(
    f: F,
    lt: spec_fn(T, T) -> bool,
    v0: Seq<T>,
    pre: Seq<T>,
    cur: Seq<T>,
    suf: Seq<T>,
    pred: Option<T>,
    index: int,
)
    requires
        select_frame(f, lt, v0, pre, cur, suf, pred, index),
        answers_by(f, lt) ==> selected(lt, cur, index - pre.len()),
    ensures
        permutation(v0, pre + cur + suf),
        answers_by(f, lt) ==> selected(lt, pre + cur + suf, index),
{
    if answers_by(f, lt) {
        let s = pre + cur + suf;
        let j = index - pre.len();
        let n = cur.len() as int;
        assert forall|i: int| 0 <= i <= 1 implies all_le(
            lt,
            #[trigger] s.subrange(0, index + i),
            s.subrange(index + i, s.len() as int),
        ) by {
            let a = cur.subrange(0, j + i);
            let b = cur.subrange(j + i, n);
            assert(all_le(lt, a, b));
            lemma_all_le_sub(lt, pre, cur, 0, pre.len() as int, j + i, n);
            lemma_all_le_sub(lt, cur, suf, 0, j + i, 0, suf.len() as int);
            assert(pre.subrange(0, pre.len() as int) =~= pre);
            assert(suf.subrange(0, suf.len() as int) =~= suf);
            lemma_all_le_concat(lt, pre, a, b);
            lemma_all_le_concat(lt, pre, a, suf);
            lemma_all_le_concat(lt, pre + a, b, suf);
            assert(s.subrange(0, index + i) =~= pre + a);
            assert(s.subrange(index + i, s.len() as int) =~= b + suf);
        }
        assert(s.subrange(0, index) == s.subrange(0, index + 0));
    }
}

/// A frame, for every order, whose middle part has the wanted position
/// selected by every order that the answers agree with, is a permutation
/// with that position selected by each such order.
proof fn lemma_select_finish<T, F: Fn(&T, &T) -> bool>(
    f: F,
    v0: Seq<T>,
    pre: Seq<T>,
    cur: Seq<T>,
    suf: Seq<T>,
    pred: Option<T>,
    index: int,
)
    requires
        forall|lt: spec_fn(T, T) -> bool| #[trigger] select_frame(f, lt, v0, pre, cur, suf, pred, index),
        forall|lt: spec_fn(T, T) -> bool|
            #[trigger] answers_by(f, lt) ==> selected(lt, cur, index - pre.len()),
    ensures
        permutation(v0, pre + cur + suf),
        forall|lt: spec_fn(T, T) -> bool|
            #[trigger] answers_by(f, lt) ==> selected(lt, pre + cur + suf, index),
{
    assert(select_frame(f, |a: T, b: T| false, v0, pre, cur, suf, pred, index));
    assert forall|lt: spec_fn(T, T) -> bool| #[trigger] answers_by(f, lt) implies selected(
        lt,
        pre + cur + suf,
        index,
    ) by {
        assert(select_frame(f, lt, v0, pre, cur, suf, pred, index));
        lemma_select_done(f, lt, v0, pre, cur, suf, pred, index);
    }
}

/// A sorted sequence has every position selected.
proof fn lemma_sorted_selected<T>(lt: spec_fn(T, T) -> bool, s: Seq<T>, i: int)
    requires
        sorted_by(lt, s),
        0 <= i < s.len(),
    ensures
        selected(lt, s, i),
{
    assert forall|x: int, y: int|
        0 <= x < s.subrange(0, i).len() && 0 <= y < s.subrange(i, s.len() as int).len() implies !lt(#[trigger] s.subrange(i, s.len() as int)[y],
        #[trigger] s.subrange(0, i)[x],
    ) by {
        assert(!lt(s[i + y], s[x]));
    }
    assert forall|x: int, y: int|
        0 <= x < s.subrange(0, i + 1).len() && 0 <= y < s.subrange(i + 1, s.len() as int).len()
        implies !lt(#[trigger] s.subrange(i + 1, s.len() as int)[y],
        #[trigger] s.subrange(0, i + 1)[x],
    ) by {
        assert(!lt(s[i + 1 + y], s[x]));
    }
}

/// The elements before a pivot, the pivot, and the elements after it come in
/// order.
proof fn lemma_split_order<T, F: Fn(&T, &T) -> bool>(f: F, lt: spec_fn(T, T) -> bool, cur: Seq<T>, mid: int)
    requires
        answers_by(f, lt),
        0 <= mid < cur.len(),
        forall|k: int| 0 <= k < mid ==> less(f, #[trigger] cur[k], cur[mid]),
        forall|k: int| mid < k < cur.len() ==> not_less(f, #[trigger] cur[k], cur[mid]),
    ensures
        all_le(lt, cur.subrange(0, mid), cur.subrange(mid, cur.len() as int)),
        all_le(lt, cur.subrange(0, mid + 1), cur.subrange(mid + 1, cur.len() as int)),
{
    let pv = cur[mid];
    assert forall|x: int, y: int| 0 <= x < mid && mid <= y < cur.len() implies !lt(#[trigger] cur[y],
        #[trigger] cur[x],
    ) by {
        assert(less(f, cur[x], pv));
        lemma_asym(lt, cur[x], pv);
        if y > mid {
            assert(not_less(f, cur[y], pv));
            if less(f, cur[y], cur[x]) {
                lemma_less_le(lt, cur[y], cur[x], pv);
            }
        }
    }
    assert forall|x: int, y: int| 0 <= x <= mid && mid < y < cur.len() implies !lt(#[trigger] cur[y],
        #[trigger] cur[x],
    ) by {
        assert(not_less(f, cur[y], pv));
        if x < mid {
            assert(less(f, cur[x], pv));
            lemma_asym(lt, cur[x], pv);
            if less(f, cur[y], cur[x]) {
                lemma_less_le(lt, cur[y], cur[x], pv);
            }
        }
    }
    assert forall|x: int, y: int|
        0 <= x < cur.subrange(0, mid).len() && 0 <= y < cur.subrange(mid, cur.len() as int).len()
        implies !lt(#[trigger] cur.subrange(mid, cur.len() as int)[y],
        #[trigger] cur.subrange(0, mid)[x],
    ) by {
        assert(!lt(cur[mid + y], cur[x]));
    }
    assert forall|x: int, y: int|
        0 <= x < cur.subrange(0, mid + 1).len() && 0 <= y < cur.subrange(
            mid + 1,
            cur.len() as int,
        ).len() implies !lt(#[trigger] cur.subrange(mid + 1, cur.len() as int)[y],
        #[trigger] cur.subrange(0, mid + 1)[x],
    ) by {
        assert(!lt(cur[mid + 1 + y], cur[x]));
    }
}

/// After a partition into elements equal to the pivot `cur[0]` and elements
/// it goes before, the former come before the latter, and among themselves
/// in any order.
proof fn lemma_equal_order<T, F: Fn(&T, &T) -> bool>(f: F, lt: spec_fn(T, T) -> bool, cur: Seq<T>, p: T, mid: int)
    requires
        answers_by(f, lt),
        1 <= mid <= cur.len(),
        not_less(f, p, cur[0]),
        forall|k: int| 0 <= k < cur.len() ==> not_less(f, #[trigger] cur[k], p),
        forall|k: int| 1 <= k < mid ==> not_less(f, cur[0], #[trigger] cur[k]),
        forall|k: int| mid <= k < cur.len() ==> less(f, cur[0], #[trigger] cur[k]),
    ensures
        forall|x: int, y: int| 0 <= x < mid && 0 <= y < cur.len() ==> !lt(#[trigger] cur[y],
            #[trigger] cur[x],
        ),
{
    let pv = cur[0];
    lemma_asym(lt, pv, pv);
    assert(!lt(p, pv));
    assert forall|x: int, y: int| 0 <= x < mid && 0 <= y < cur.len() implies !lt(#[trigger] cur[y],
        #[trigger] cur[x],
    ) by {
        if x > 0 {
            assert(not_less(f, pv, cur[x]));
        }
        assert(!lt(pv, cur[x]));
        if y >= mid {
            assert(less(f, pv, cur[y]));
            if less(f, cur[y], cur[x]) {
                lemma_asym(lt, cur[y], cur[x]);
                lemma_less_le(lt, pv, cur[y], cur[x]);
            }
        } else {
            assert(not_less(f, cur[y], p));
            lemma_neg_trans(lt, cur[y], p, pv);
            lemma_neg_trans(lt, cur[y], pv, cur[x]);
        }
    }
}

/// After the elements equal to the pivot were split off at the front of
/// `cur`, short of the wanted position, they join `pre`.
proof fn lemma_select_equal<T, F: Fn(&T, &T) -> bool>(
    f: F,
    lt: spec_fn(T, T) -> bool,
    v0: Seq<T>,
    pre: Seq<T>,
    cur: Seq<T>,
    suf: Seq<T>,
    pred: Option<T>,
    index: int,
    mid: int,
)
    requires
        select_frame(f, lt, v0, pre, cur, suf, pred, index),
        pred is Some,
        1 <= mid <= index - pre.len(),
        not_less(f, pred->0, cur[0]),
        forall|k: int| 1 <= k < mid ==> not_less(f, cur[0], #[trigger] cur[k]),
        forall|k: int| mid <= k < cur.len() ==> less(f, cur[0], #[trigger] cur[k]),
    ensures
        select_frame(
            f,
            lt,
            v0,
            pre + cur.subrange(0, mid),
            cur.subrange(mid, cur.len() as int),
            suf,
            None,
            index,
        ),
{
    let eq = cur.subrange(0, mid);
    let rest = cur.subrange(mid, cur.len() as int);
    assert(cur =~= eq + rest);
    assert(pre + eq + rest + suf =~= pre + cur + suf);
    if answers_by(f, lt) {
        lemma_equal_order(f, lt, cur, pred->0, mid);
        assert forall|x: int, y: int| 0 <= x < eq.len() && 0 <= y < rest.len() implies !lt(#[trigger] rest[y],
            #[trigger] eq[x],
        ) by {
            assert(!lt(cur[mid + y], cur[x]));
        }
        lemma_all_le_sub(lt, pre, cur, 0, pre.len() as int, mid, cur.len() as int);
        lemma_all_le_sub(lt, cur, suf, 0, mid, 0, suf.len() as int);
        lemma_all_le_sub(lt, cur, suf, mid, cur.len() as int, 0, suf.len() as int);
        assert(pre.subrange(0, pre.len() as int) =~= pre);
        assert(suf.subrange(0, suf.len() as int) =~= suf);
        lemma_all_le_concat(lt, pre, eq, rest);
        lemma_all_le_concat(lt, pre, eq, suf);
    }
}

/// After a partition of `cur` at `mid`, short of the wanted position, the
/// left part and the pivot join `pre`.
proof fn lemma_select_right<T, F: Fn(&T, &T) -> bool>(
    f: F,
    lt: spec_fn(T, T) -> bool,
    v0: Seq<T>,
    pre: Seq<T>,
    cur: Seq<T>,
    suf: Seq<T>,
    pred: Option<T>,
    index: int,
    mid: int,
)
    requires
        select_frame(f, lt, v0, pre, cur, suf, pred, index),
        0 <= mid < index - pre.len(),
        forall|k: int| 0 <= k < mid ==> less(f, #[trigger] cur[k], cur[mid]),
        forall|k: int| mid < k < cur.len() ==> not_less(f, #[trigger] cur[k], cur[mid]),
    ensures
        select_frame(
            f,
            lt,
            v0,
            pre + cur.subrange(0, mid + 1),
            cur.subrange(mid + 1, cur.len() as int),
            suf,
            Some(cur[mid]),
            index,
        ),
{
    let a = cur.subrange(0, mid + 1);
    let b = cur.subrange(mid + 1, cur.len() as int);
    assert(cur =~= a + b);
    assert(pre + a + b + suf =~= pre + cur + suf);
    assert forall|k: int| 0 <= k < b.len() implies not_less(f, #[trigger] b[k], cur[mid]) by {
        assert(b[k] == cur[mid + 1 + k]);
    }
    if answers_by(f, lt) {
        lemma_split_order(f, lt, cur, mid);
        lemma_all_le_sub(lt, pre, cur, 0, pre.len() as int, mid + 1, cur.len() as int);
        lemma_all_le_sub(lt, cur, suf, 0, mid + 1, 0, suf.len() as int);
        lemma_all_le_sub(lt, cur, suf, mid + 1, cur.len() as int, 0, suf.len() as int);
        assert(pre.subrange(0, pre.len() as int) =~= pre);
        assert(suf.subrange(0, suf.len() as int) =~= suf);
        lemma_all_le_concat(lt, pre, a, b);
        lemma_all_le_concat(lt, pre, a, suf);
    }
}

/// After a partition of `cur` at `mid`, past the wanted position, the pivot
/// and the right part join `suf`.
proof fn lemma_select_left<T, F: Fn(&T, &T) -> bool>(
    f: F,
    lt: spec_fn(T, T) -> bool,
    v0: Seq<T>,
    pre: Seq<T>,
    cur: Seq<T>,
    suf: Seq<T>,
    pred: Option<T>,
    index: int,
    mid: int,
)
    requires
        select_frame(f, lt, v0, pre, cur, suf, pred, index),
        index - pre.len() < mid < cur.len(),
        forall|k: int| 0 <= k < mid ==> less(f, #[trigger] cur[k], cur[mid]),
        forall|k: int| mid < k < cur.len() ==> not_less(f, #[trigger] cur[k], cur[mid]),
    ensures
        select_frame(
            f,
            lt,
            v0,
            pre,
            cur.subrange(0, mid),
            cur.subrange(mid, cur.len() as int) + suf,
            pred,
            index,
        ),
{
    let a = cur.subrange(0, mid);
    let b = cur.subrange(mid, cur.len() as int);
    assert(cur =~= a + b);
    assert(pre + a + (b + suf) =~= pre + cur + suf);
    if pred is Some {
        assert forall|k: int| 0 <= k < a.len() implies not_less(f, #[trigger] a[k], pred->0) by {
            assert(a[k] == cur[k]);
        }
    }
    if answers_by(f, lt) {
        lemma_split_order(f, lt, cur, mid);
        lemma_all_le_sub(lt, pre, cur, 0, pre.len() as int, 0, mid);
        lemma_all_le_sub(lt, pre, cur, 0, pre.len() as int, mid, cur.len() as int);
        lemma_all_le_sub(lt, cur, suf, 0, mid, 0, suf.len() as int);
        lemma_all_le_sub(lt, cur, suf, mid, cur.len() as int, 0, suf.len() as int);
        assert(pre.subrange(0, pre.len() as int) =~= pre);
        assert(suf.subrange(0, suf.len() as int) =~= suf);
        lemma_all_le_concat(lt, a, b, suf);
        lemma_all_le_concat(lt, pre, b, suf);
    }
}

/// When the elements equal to the pivot, split off at the front, reach past
/// position `i`, that position is selected.
proof fn lemma_equal_selected<T, F: Fn(&T, &T) -> bool>(f: F, lt: spec_fn(T, T) -> bool, c: Seq<T>, p: T, mid: int, i: int)
    requires
        0 <= i < mid <= c.len(),
        not_less(f, p, c[0]),
        forall|k: int| 0 <= k < c.len() ==> not_less(f, #[trigger] c[k], p),
        forall|k: int| 1 <= k < mid ==> not_less(f, c[0], #[trigger] c[k]),
        forall|k: int| mid <= k < c.len() ==> less(f, c[0], #[trigger] c[k]),
    ensures
        answers_by(f, lt) ==> selected(lt, c, i),
{
    if answers_by(f, lt) {
        lemma_equal_order(f, lt, c, p, mid);
        assert forall|x: int, y: int|
            0 <= x < c.subrange(0, i).len() && 0 <= y < c.subrange(i, c.len() as int).len()
            implies !lt(#[trigger] c.subrange(i, c.len() as int)[y],
            #[trigger] c.subrange(0, i)[x],
        ) by {
            assert(!lt(c[i + y], c[x]));
        }
        assert forall|x: int, y: int|
            0 <= x < c.subrange(0, i + 1).len() && 0 <= y < c.subrange(i + 1, c.len() as int).len()
            implies !lt(#[trigger] c.subrange(i + 1, c.len() as int)[y],
            #[trigger] c.subrange(0, i + 1)[x],
        ) by {
            assert(!lt(c[i + 1 + y], c[x]));
        }
    }
}

/// Reorders `v` so that the element at `index` is at its sorted position,
/// narrowing down on the part that holds it. `pred`, when given, is an
/// element that no element of `v` goes before. `limit` is the number of
/// imbalanced partitions allowed before the rest is heapsorted.
#[verifier::loop_isolation(false)]
fn partition_at_index_loop<'a, T, F: Fn(&T, &T) -> bool>(
    v: &'a mut [T],
    index: usize,
    is_less: &F,
    pred: Option<&'a T>,
    limit: u32,
)
    requires
        callable::<T, F>(*is_less),
        index < old(v)@.len(),
        none_before(*is_less, old(v)@, lower_bound(pred)),
    ensures
        permutation(old(v)@, final(v)@),
        forall|lt: spec_fn(T, T) -> bool|
            #[trigger] answers_by(*is_less, lt) ==> selected(lt, final(v)@, index as int),
{
    let ghost f = *is_less;
    let ghost v0 = v@;
    let ghost fin = final(v)@;
    let ghost mut pre: Seq<T> = Seq::empty();
    let ghost mut suf: Seq<T> = Seq::empty();
    let mut v = v;
    let mut index = index;
    let ghost wanted = index as int;
    let mut pred = pred;
    let mut limit = limit;
    // True if the last partitioning was reasonably balanced.
    let mut was_balanced = true;

    proof {
        assert(pre + v@ + suf =~= v0);
        assert forall|lt: spec_fn(T, T) -> bool| #[trigger] select_frame(f, lt, v0, pre, v@, suf, lower_bound(pred), wanted) by {}
        assert(pre + final(v)@ + suf =~= fin);
    }

    loop
        invariant
            f == *is_less,
            callable::<T, F>(*is_less),
            pre + final(v)@ + suf == fin,
            forall|lt: spec_fn(T, T) -> bool| #[trigger] select_frame(f, lt, v0, pre, v@, suf, lower_bound(pred), wanted),
            index == wanted - pre.len(),
        decreases v@.len(),
    {
        let len = v.len();

        // Short slices are simply sorted.
        if len <= SELECT_MAX_INSERTION {
            let ghost c0 = v@;
            insertion_sort(v, is_less);
            proof {
                assert forall|lt: spec_fn(T, T) -> bool| #[trigger] select_frame(f, lt, v0, pre, v@, suf, lower_bound(pred), wanted) by {
                    lemma_select_permuted(f, lt, v0, pre, c0, v@, suf, lower_bound(pred), wanted);
                }
                lemma_permutation_len(c0, v@);
                assert(select_frame(f, |a: T, b: T| false, v0, pre, v@, suf, lower_bound(pred), wanted));
                assert forall|lt: spec_fn(T, T) -> bool| #[trigger] answers_by(f, lt) implies selected(
                    lt,
                    v@,
                    index as int,
                ) by {
                    lemma_sorted_selected(lt, v@, index as int);
                }
                lemma_select_finish(f, v0, pre, v@, suf, lower_bound(pred), wanted);
            }
            return;
        }

        // Too many bad pivots: heapsort what is left.
        if limit == 0 {
            let ghost c0 = v@;
            heapsort(v, is_less);
            proof {
                assert forall|lt: spec_fn(T, T) -> bool| #[trigger] select_frame(f, lt, v0, pre, v@, suf, lower_bound(pred), wanted) by {
                    lemma_select_permuted(f, lt, v0, pre, c0, v@, suf, lower_bound(pred), wanted);
                }
                lemma_permutation_len(c0, v@);
                assert(select_frame(f, |a: T, b: T| false, v0, pre, v@, suf, lower_bound(pred), wanted));
                assert forall|lt: spec_fn(T, T) -> bool| #[trigger] answers_by(f, lt) implies selected(
                    lt,
                    v@,
                    index as int,
                ) by {
                    lemma_sorted_selected(lt, v@, index as int);
                }
                lemma_select_finish(f, v0, pre, v@, suf, lower_bound(pred), wanted);
            }
            return;
        }

        // If the last partitioning was imbalanced, try breaking patterns.
        if !was_balanced {
            let ghost c0 = v@;
            break_patterns(v);
            proof {
                assert forall|lt: spec_fn(T, T) -> bool| #[trigger] select_frame(f, lt, v0, pre, v@, suf, lower_bound(pred), wanted) by {
                    lemma_select_permuted(f, lt, v0, pre, c0, v@, suf, lower_bound(pred), wanted);
                }
                lemma_permutation_len(c0, v@);
            }
            limit -= 1;
        }

        // Choose a pivot.
        let ghost c1 = v@;
        let (pivot, _) = choose_pivot(v, is_less);
        proof {
            assert forall|lt: spec_fn(T, T) -> bool| #[trigger] select_frame(f, lt, v0, pre, v@, suf, lower_bound(pred), wanted) by {
                    lemma_select_permuted(f, lt, v0, pre, c1, v@, suf, lower_bound(pred), wanted);
                }
                lemma_permutation_len(c1, v@);
        }

        // If the chosen pivot is equal to the predecessor, then it's the
        // smallest element in the slice. Partition the slice into elements
        // equal to and elements greater than the pivot.
        if let Some(p) = pred {
            if !is_less(p, &v[pivot]) {
                let ghost c2 = v@;
                let mid = partition_equal(v, pivot, is_less);
                proof {
                    assert forall|lt: spec_fn(T, T) -> bool| #[trigger] select_frame(f, lt, v0, pre, v@, suf, lower_bound(pred), wanted) by {
                    lemma_select_permuted(f, lt, v0, pre, c2, v@, suf, lower_bound(pred), wanted);
                }
                lemma_permutation_len(c2, v@);
                }

                // If we've passed our index, we're good.
                if mid > index {
                    proof {
                        assert(select_frame(f, |a: T, b: T| false, v0, pre, v@, suf, lower_bound(pred), wanted));
                        assert forall|lt: spec_fn(T, T) -> bool| #[trigger] answers_by(f, lt) implies selected(
                            lt,
                            v@,
                            index as int,
                        ) by {
                            lemma_equal_selected(f, lt, v@, *p, mid as int, index as int);
                        }
                        lemma_select_finish(f, v0, pre, v@, suf, lower_bound(pred), wanted);
                    }
                    return;
                }

                // Otherwise, continue with the elements greater than the
                // pivot.
                let ghost c3 = v@;
                proof {
                    assert forall|lt: spec_fn(T, T) -> bool| #[trigger] select_frame(
                        f,
                        lt,
                        v0,
                        pre + c3.subrange(0, mid as int),
                        c3.subrange(mid as int, c3.len() as int),
                        suf,
                        None,
                        wanted,
                    ) by {
                        lemma_select_equal(f, lt, v0, pre, c3, suf, lower_bound(pred), wanted, mid as int);
                    }
                }
                let (eq, rest) = v.split_at_mut(mid);
                proof {
                    pre = pre + c3.subrange(0, mid as int);
                    assert(pre + final(rest)@ + suf =~= fin);
                }
                v = rest;
                index = index - mid;
                pred = None;
                continue;
            }
        }

        // Partition the slice.
        let ghost c4 = v@;
        let (mid, _) = partition(v, pivot, is_less);
        proof {
            assert forall|lt: spec_fn(T, T) -> bool| #[trigger] select_frame(f, lt, v0, pre, v@, suf, lower_bound(pred), wanted) by {
                    lemma_select_permuted(f, lt, v0, pre, c4, v@, suf, lower_bound(pred), wanted);
                }
                lemma_permutation_len(c4, v@);
        }
        was_balanced = if mid < len - mid { mid } else { len - mid } >= len / 8;

        let ghost c5 = v@;
        if mid == index {
            // The pivot is the wanted element: everything before it goes
            // before it, and nothing after it does.
            proof {
                assert forall|lt: spec_fn(T, T) -> bool| #[trigger] answers_by(f, lt) implies selected(
                    lt,
                    c5,
                    mid as int,
                ) by {
                    lemma_split_order(f, lt, c5, mid as int);
                }
                lemma_select_finish(f, v0, pre, c5, suf, lower_bound(pred), wanted);
            }
            return;
        }

        // Split the slice into `left`, `pivot`, and `right`.

        let (left, right) = v.split_at_mut(mid);
        let (pivot, right) = right.split_at_mut(1);
        let pivot: &'a [T] = pivot;
        let pivot = &pivot[0];
        proof {
            assert(left@ == c5.subrange(0, mid as int));
            assert(right@ == c5.subrange(mid + 1, len as int));
            assert(*pivot == c5[mid as int]);
        }

        if mid < index {
            // The wanted element is on the right.
            proof {
                assert forall|lt: spec_fn(T, T) -> bool| #[trigger] select_frame(
                    f,
                    lt,
                    v0,
                    pre + c5.subrange(0, mid + 1),
                    c5.subrange(mid + 1, c5.len() as int),
                    suf,
                    Some(c5[mid as int]),
                    wanted,
                ) by {
                    lemma_select_right(f, lt, v0, pre, c5, suf, lower_bound(pred), wanted, mid as int);
                }
                pre = pre + c5.subrange(0, mid + 1);
                assert(pre + final(right)@ + suf =~= fin);
            }
            v = right;
            index = index - mid - 1;
            pred = Some(pivot);
        } else {
            // The wanted element is on the left.
            proof {
                assert forall|lt: spec_fn(T, T) -> bool| #[trigger] select_frame(
                    f,
                    lt,
                    v0,
                    pre,
                    c5.subrange(0, mid as int),
                    c5.subrange(mid as int, c5.len() as int) + suf,
                    lower_bound(pred),
                    wanted,
                ) by {
                    lemma_select_left(f, lt, v0, pre, c5, suf, lower_bound(pred), wanted, mid as int);
                }
                suf = c5.subrange(mid as int, len as int) + suf;
                assert(pre + final(left)@ + suf =~= fin);
            }
            v = left;
        }
    }
}

/// The position asked for is not a position of the slice.
#[derive(PartialEq, Eq, Structural, Clone, Copy, Debug)]
pub struct IndexOutOfBounds {
    /// The position asked for.
    pub index: usize,
    /// The length of the slice.
    pub len: usize,
}

/// The position of an element of `v` that no element goes after.
fn max_index<T, F: Fn(&T, &T) -> bool>(v: &[T], is_less: &F) -> (m: usize)
    requires
        callable::<T, F>(*is_less),
        v@.len() > 0,
    ensures
        m < v@.len(),
        forall|lt: spec_fn(T, T) -> bool| #[trigger] answers_by(*is_less, lt) ==> forall|k: int|
            0 <= k < v@.len() ==> !lt(v@[m as int], #[trigger] v@[k]),
{
    let ghost f = *is_less;
    let mut m: usize = 0;
    let mut i: usize = 1;
    while i < v.len()
        invariant
            f == *is_less,
            callable::<T, F>(*is_less),
            m < i <= v@.len(),
            forall|lt: spec_fn(T, T) -> bool| #[trigger] answers_by(f, lt) ==> forall|k: int|
                0 <= k < i ==> !lt(v@[m as int], #[trigger] v@[k]),
        decreases v@.len() - i,
    {
        if is_less(&v[m], &v[i]) {
            proof {
                assert(less(f, v@[m as int], v@[i as int]));
                assert forall|lt: spec_fn(T, T) -> bool| #[trigger] answers_by(f, lt) implies forall|k: int|
                    0 <= k < i + 1 ==> !lt(v@[i as int], #[trigger] v@[k]) by {
                    assert forall|k: int| 0 <= k < i + 1 implies !lt(v@[i as int], #[trigger] v@[k]) by {
                        if k < i && less(f, v@[i as int], v@[k]) {
                            lemma_asym(lt, v@[i as int], v@[k]);
                            lemma_less_le(lt, v@[m as int], v@[i as int], v@[k]);
                        }
                        lemma_asym(lt, v@[i as int], v@[i as int]);
                    }
                }
            }
            m = i;
        } else {
            proof {
                assert(not_less(f, v@[m as int], v@[i as int]));
            }
        }
        i += 1;
    }
    m
}

/// The position of an element of `v` that goes after no element.
fn min_index<T, F: Fn(&T, &T) -> bool>(v: &[T], is_less: &F) -> (m: usize)
    requires
        callable::<T, F>(*is_less),
        v@.len() > 0,
    ensures
        m < v@.len(),
        forall|lt: spec_fn(T, T) -> bool| #[trigger] answers_by(*is_less, lt) ==> forall|k: int|
            0 <= k < v@.len() ==> !lt(#[trigger] v@[k], v@[m as int]),
{
    let ghost f = *is_less;
    let mut m: usize = 0;
    let mut i: usize = 1;
    while i < v.len()
        invariant
            f == *is_less,
            callable::<T, F>(*is_less),
            m < i <= v@.len(),
            forall|lt: spec_fn(T, T) -> bool| #[trigger] answers_by(f, lt) ==> forall|k: int|
                0 <= k < i ==> !lt(#[trigger] v@[k], v@[m as int]),
        decreases v@.len() - i,
    {
        if !is_less(&v[m], &v[i]) {
            proof {
                assert(not_less(f, v@[m as int], v@[i as int]));
                assert forall|lt: spec_fn(T, T) -> bool| #[trigger] answers_by(f, lt) implies forall|k: int|
                    0 <= k < i + 1 ==> !lt(#[trigger] v@[k], v@[i as int]) by {
                    assert forall|k: int| 0 <= k < i + 1 implies !lt(#[trigger] v@[k], v@[i as int]) by {
                        if k < i {
                            lemma_neg_trans(lt, v@[k], v@[m as int], v@[i as int]);
                        }
                        lemma_asym(lt, v@[i as int], v@[i as int]);
                    }
                }
            }
            m = i;
        } else {
            proof {
                assert(less(f, v@[m as int], v@[i as int]));
            }
        }
        i += 1;
    }
    m
}

/// Reorders `v` so that the element at `index` is at its sorted position,
/// and returns the elements before it, that element, and the elements after
/// it. Fails when `index` is not a position of `v`. The result is a
/// permutation of `v` whatever `is_less` answers; by every strict weak order
/// that the answers of `is_less` agree with, nothing before `index` goes
/// after anything from it on, and nothing up to it goes after anything past
/// it.
pub fn const_partition_at_index<'a, T, F: Fn(&T, &T) -> bool>(
    v: &'a mut [T],
    index: usize,
    is_less: F,
) -> (r: Result<(&'a mut [T], &'a mut T, &'a mut [T]), IndexOutOfBounds>)
    requires
        callable::<T, F>(is_less),
    ensures
        r is Err <==> index >= old(v)@.len(),
        r is Err ==> r->Err_0 == (IndexOutOfBounds { index, len: old(v)@.len() as usize })
            && final(v)@ == old(v)@,
        r is Ok ==> {
            let (left, nth, right) = r->Ok_0;
            &&& left@.len() == index
            &&& permutation(old(v)@, left@ + seq![*nth] + right@)
            &&& forall|lt: spec_fn(T, T) -> bool|
                #[trigger] answers_by(is_less, lt) ==> selected(lt, left@ + seq![*nth] + right@, index as int)
            &&& final(v)@ == final(r->Ok_0.0)@ + seq![*final(r->Ok_0.1)] + final(r->Ok_0.2)@
        },
{
    partition_at_index(v, index, &is_less)
}

/// Reorders `v` so that the element at `index` is at its sorted position by
/// every strict weak order that the answers of `is_less` agree with, and
/// returns the elements before it, that element, and the elements after it.
/// Fails when `index` is not a position of `v`.
pub fn partition_at_index<'a, T, F: Fn(&T, &T) -> bool>(
    v: &'a mut [T],
    index: usize,
    is_less: &F,
) -> (r: Result<(&'a mut [T], &'a mut T, &'a mut [T]), IndexOutOfBounds>)
    requires
        callable::<T, F>(*is_less),
    ensures
        r is Err <==> index >= old(v)@.len(),
        r is Err ==> r->Err_0 == (IndexOutOfBounds { index, len: old(v)@.len() as usize })
            && final(v)@ == old(v)@,
        r is Ok ==> {
            let (left, nth, right) = r->Ok_0;
            &&& left@.len() == index
            &&& permutation(old(v)@, left@ + seq![*nth] + right@)
            &&& forall|lt: spec_fn(T, T) -> bool|
                #[trigger] answers_by(*is_less, lt) ==> selected(lt, left@ + seq![*nth] + right@, index as int)
            &&& final(v)@ == final(r->Ok_0.0)@ + seq![*final(r->Ok_0.1)] + final(r->Ok_0.2)@
        },
{
    let ghost f = *is_less;
    let len = v.len();
    if index >= len {
        return Err(IndexOutOfBounds { index, len });
    }
    let ghost s0 = v@;
    if index == len - 1 {
        // Find a greatest element and place it in the last position.
        let m = max_index(v, is_less);
        swap(v, m, index);
        proof {
            assert forall|lt: spec_fn(T, T) -> bool| #[trigger] answers_by(f, lt) implies selected(
                lt,
                v@,
                index as int,
            ) by {
                let s = v@;
                assert forall|k: int| 0 <= k < len implies !lt(s[index as int], #[trigger] s[k]) by {
                    if k != m && k != index {
                        assert(s[k] == s0[k]);
                    }
                    assert(!lt(s0[m as int], s0[k]));
                    assert(!lt(s0[m as int], s0[index as int]));
                    assert(!lt(s0[m as int], s0[m as int]));
                }
                lemma_top_selected(lt, s);
            }
        }
    } else if index == 0 {
        // Find a least element and place it in the first position.
        let m = min_index(v, is_less);
        swap(v, m, index);
        proof {
            assert forall|lt: spec_fn(T, T) -> bool| #[trigger] answers_by(f, lt) implies selected(
                lt,
                v@,
                index as int,
            ) by {
                let s = v@;
                assert forall|k: int| 0 <= k < len implies !lt(#[trigger] s[k], s[0]) by {
                    if k != m && k != 0 {
                        assert(s[k] == s0[k]);
                    }
                    assert(!lt(s0[k], s0[m as int]));
                    assert(!lt(s0[0], s0[m as int]));
                    assert(!lt(s0[m as int], s0[m as int]));
                }
                lemma_bottom_selected(lt, s);
            }
        }
    } else {
        let limit = bit_length(len);
        partition_at_index_loop(v, index, is_less, None, limit);
    }
    let ghost s1 = v@;
    proof {
        lemma_permutation_len(s0, s1);
    }
    let (left, right) = v.split_at_mut(index);
    let (nth, right) = right.split_at_mut(1);
    let nth = &mut nth[0];
    proof {
        assert(s1 =~= left@ + seq![*nth] + right@);
    }
    Ok((left, nth, right))
}

/// A last element that no element goes after is selected.
proof fn lemma_top_selected<T>(lt: spec_fn(T, T) -> bool, s: Seq<T>)
    requires
        s.len() > 0,
        forall|k: int| 0 <= k < s.len() ==> !lt(s[s.len() - 1], #[trigger] s[k]),
    ensures
        selected(lt, s, s.len() - 1),
{
    let i = s.len() - 1;
    assert forall|x: int, y: int|
        0 <= x < s.subrange(0, i).len() && 0 <= y < s.subrange(i, s.len() as int).len() implies !lt(#[trigger] s.subrange(i, s.len() as int)[y],
        #[trigger] s.subrange(0, i)[x],
    ) by {
        assert(s.subrange(i, s.len() as int)[y] == s[i]);
        assert(s.subrange(0, i)[x] == s[x]);
    }
}

/// A first element that goes after no element is selected.
proof fn lemma_bottom_selected<T>(lt: spec_fn(T, T) -> bool, s: Seq<T>)
    requires
        s.len() > 0,
        forall|k: int| 0 <= k < s.len() ==> !lt(#[trigger] s[k], s[0]),
    ensures
        selected(lt, s, 0),
{
    assert forall|x: int, y: int|
        0 <= x < s.subrange(0, 1).len() && 0 <= y < s.subrange(1, s.len() as int).len() implies !lt(#[trigger] s.subrange(1, s.len() as int)[y],
        #[trigger] s.subrange(0, 1)[x],
    ) by {
        assert(s.subrange(1, s.len() as int)[y] == s[1 + y]);
        assert(s.subrange(0, 1)[x] == s[0]);
    }
}

} // verus!
