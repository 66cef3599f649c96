//! Insertion sort for short slices, and the shifts it is made of.
use vstd::prelude::*;
use crate::model::{
    answers_by, callable, lemma_asym, lemma_neg_trans, lemma_permutation_concat,
    lemma_permutation_len, less, not_less, permutation, sorted_by, swap, swapped,
};

verus! {

/// Maximum number of adjacent out-of-order pairs that get shifted.
pub const MAX_STEPS: usize = 5;

/// Slices shorter than this get no shifting.
pub const SHORTEST_SHIFTING: usize = 50;

/// `new` is `s` with its last element `x` moved to position `k`: `x` was
/// found to go before each element from `k` on, and not to go before the
/// element at `k - 1`, if any.
pub open spec fn tail_shifted<T, F: Fn(&T, &T) -> bool>(f: F, s: Seq<T>, k: int, new: Seq<T>) -> bool {
    let n = s.len() as int;
    let x = s[n - 1];
    &&& 0 <= k < n
    &&& new == s.subrange(0, k) + seq![x] + s.subrange(k, n - 1)
    &&& forall|j: int| k <= j < n - 1 ==> less(f, x, #[trigger] s[j])
    &&& k == 0 || not_less(f, x, s[k - 1])
}

/// `new` is `s` with its first element `x` moved to position `k`: each
/// element up to `k` was found to go before `x`, and the element at `k + 1`,
/// if any, not to.
pub open spec fn head_shifted<T, F: Fn(&T, &T) -> bool>(f: F, s: Seq<T>, k: int, new: Seq<T>) -> bool {
    let n = s.len() as int;
    let x = s[0];
    &&& 0 <= k < n
    &&& new == s.subrange(1, k + 1) + seq![x] + s.subrange(k + 1, n)
    &&& forall|j: int| 1 <= j <= k ==> less(f, #[trigger] s[j], x)
    &&& k == n - 1 || not_less(f, s[k + 1], x)
}

/// Moving the last element as `shift_tail` does sorts a slice whose other
/// elements were sorted, and leaves a sorted slice as it is.
pub proof fn lemma_tail_shifted_order<T, F: Fn(&T, &T) -> bool>(
    f: F,
    lt: spec_fn(T, T) -> bool,
    s: Seq<T>,
    k: int,
    new: Seq<T>,
)
    requires
        answers_by(f, lt),
        tail_shifted(f, s, k, new),
    ensures
        sorted_by(lt, s.subrange(0, s.len() - 1)) ==> sorted_by(lt, new),
        sorted_by(lt, s) ==> new == s,
{
    let n = s.len() as int;
    let x = s[n - 1];
    assert forall|m: int| 0 <= m < n implies #[trigger] new[m] == (if m < k {
        s[m]
    } else if m == k {
        x
    } else {
        s[m - 1]
    }) by {}
    if sorted_by(lt, s.subrange(0, n - 1)) {
        let p = s.subrange(0, n - 1);
        assert forall|a: int, b: int| 0 <= a < b < n implies !lt(#[trigger] new[b], #[trigger] new[a]) by {
            if b < k {
                assert(new[b] == p[b] && new[a] == p[a]);
            } else if b == k {
                assert(not_less(f, x, s[k - 1]));
                if a < k - 1 {
                    assert(!lt(p[k - 1], p[a]));
                    lemma_neg_trans(lt, x, s[k - 1], s[a]);
                }
            } else if a == k {
                assert(less(f, x, s[b - 1]));
                lemma_asym(lt, x, s[b - 1]);
            } else if a < k {
                assert(new[b] == p[b - 1] && new[a] == p[a]);
            } else {
                assert(new[b] == p[b - 1] && new[a] == p[a - 1]);
            }
        }
    }
    if sorted_by(lt, s) && k < n - 1 {
        assert(less(f, x, s[n - 2]));
        assert(!lt(s[n - 1], s[n - 2]));
    }
    if sorted_by(lt, s) {
        assert(new =~= s);
    }
}

/// Moving the first element as `shift_head` does sorts a slice whose other
/// elements were sorted, and leaves a sorted slice as it is.
pub proof fn lemma_head_shifted_order<T, F: Fn(&T, &T) -> bool>(
    f: F,
    lt: spec_fn(T, T) -> bool,
    s: Seq<T>,
    k: int,
    new: Seq<T>,
)
    requires
        answers_by(f, lt),
        head_shifted(f, s, k, new),
    ensures
        sorted_by(lt, s.subrange(1, s.len() as int)) ==> sorted_by(lt, new),
        sorted_by(lt, s) ==> new == s,
{
    let n = s.len() as int;
    let x = s[0];
    assert forall|m: int| 0 <= m < n implies #[trigger] new[m] == (if m < k {
        s[m + 1]
    } else if m == k {
        x
    } else {
        s[m]
    }) by {}
    if sorted_by(lt, s.subrange(1, n)) {
        let p = s.subrange(1, n);
        assert forall|a: int, b: int| 0 <= a < b < n implies !lt(#[trigger] new[b], #[trigger] new[a]) by {
            if a > k {
                assert(new[b] == p[b - 1] && new[a] == p[a - 1]);
            } else if a == k {
                assert(not_less(f, s[k + 1], x));
                if b > k + 1 {
                    assert(!lt(p[b - 1], p[k]));
                    lemma_neg_trans(lt, s[b], s[k + 1], x);
                }
            } else if b == k {
                assert(less(f, s[a + 1], x));
                lemma_asym(lt, s[a + 1], x);
            } else if b > k {
                assert(new[b] == p[b - 1] && new[a] == p[a]);
            } else {
                assert(new[b] == p[b] && new[a] == p[a]);
            }
        }
    }
    if sorted_by(lt, s) && k > 0 {
        assert(less(f, s[1], x));
        assert(!lt(s[1], s[0]));
    }
    if sorted_by(lt, s) {
        assert(new =~= s);
    }
}

/// Shifts the last element to the left until it meets an element that it
/// does not go before.
pub fn shift_tail<T, F: Fn(&T, &T) -> bool>(v: &mut [T], is_less: &F)
    requires
        callable::<T, F>(*is_less),
    ensures
        permutation(old(v)@, final(v)@),
        old(v)@.len() == 0 ==> final(v)@ == old(v)@,
        old(v)@.len() > 0 ==> exists|k: int| tail_shifted(*is_less, old(v)@, k, final(v)@),
        forall|lt: spec_fn(T, T) -> bool|
            #[trigger] answers_by(*is_less, lt) ==> (old(v)@.len() > 0 && sorted_by(
                lt,
                old(v)@.subrange(0, old(v)@.len() - 1),
            ) ==> sorted_by(lt, final(v)@)) && (sorted_by(lt, old(v)@) ==> final(v)@ == old(v)@),
{
    let ghost f = *is_less;
    let ghost s0 = v@;
    let len = v.len();
    if len < 2 {
        proof {
            if len == 1 {
                assert(v@ =~= s0.subrange(0, 0) + seq![s0[0]] + s0.subrange(0, 0));
                assert(tail_shifted(f, s0, 0, v@));
            }
            assert forall|lt: spec_fn(T, T) -> bool| #[trigger] answers_by(f, lt) implies (len > 0
                && sorted_by(lt, s0.subrange(0, len - 1)) ==> sorted_by(lt, v@)) && (sorted_by(
                lt,
                s0,
            ) ==> v@ == s0) by {}
        }
        return;
    }
    let ghost x = s0[len - 1];
    let ghost mut k: int = len - 1;
    // If the last two elements are out of order...
    if is_less(&v[len - 1], &v[len - 2]) {
        swap(v, len - 1, len - 2);
        proof {
            let w = s0.subrange(0, len - 2) + seq![x] + s0.subrange(len - 2, len - 1);
            assert(v@.len() == w.len());
            assert forall|m: int| 0 <= m < len implies #[trigger] v@[m] == w[m] by {
                assert(v@ == swapped(s0, len - 1, len - 2));
                if m < len - 2 {
                    assert(w[m] == s0[m]);
                    assert(v@[m] == s0[m]);
                } else if m == len - 2 {
                    assert(w[m] == x);
                    assert(v@[m] == s0[len - 1]);
                } else {
                    assert(w[m] == s0[len - 2]);
                    assert(v@[m] == s0[len - 2]);
                }
            }
            assert(v@ =~= w);
        }
        let mut i = len - 2;
        while i > 0
            invariant
                f == *is_less,
                callable::<T, F>(*is_less),
                s0.len() == len,
                x == s0[len - 1],
                i <= len - 2,
                permutation(s0, v@),
                v@ == s0.subrange(0, i as int) + seq![x] + s0.subrange(i as int, len - 1),
                forall|j: int| i <= j < len - 1 ==> less(f, x, #[trigger] s0[j]),
            ensures
                i == 0 || not_less(f, x, s0[i - 1]),
            decreases i,
        {
            assert(v@[i as int] == x && v@[i - 1] == s0[i - 1]);
            if !is_less(&v[i], &v[i - 1]) {
                break;
            }
            let ghost s1 = v@;
            // Move the element one place to the left.
            swap(v, i, i - 1);
            proof {
                assert(v@ =~= s0.subrange(0, i - 1) + seq![x] + s0.subrange(i - 1, len - 1));
            }
            i -= 1;
        }
        proof {
            k = i as int;
        }
    } else {
        proof {
            assert(not_less(f, s0[len - 1], s0[len - 2]));
            assert(v@ =~= s0.subrange(0, len - 1) + seq![x] + s0.subrange(len - 1, len - 1));
        }
    }
    proof {
        assert(tail_shifted(f, s0, k, v@));
        assert forall|lt: spec_fn(T, T) -> bool| #[trigger] answers_by(f, lt) implies (len > 0
            && sorted_by(lt, s0.subrange(0, len - 1)) ==> sorted_by(lt, v@)) && (sorted_by(lt, s0)
            ==> v@ == s0) by {
            lemma_tail_shifted_order(f, lt, s0, k, v@);
        }
    }
}

/// Shifts the first element to the right until it meets an element that
/// does not go before it.
pub fn shift_head<T, F: Fn(&T, &T) -> bool>(v: &mut [T], is_less: &F)
    requires
        callable::<T, F>(*is_less),
    ensures
        permutation(old(v)@, final(v)@),
        old(v)@.len() == 0 ==> final(v)@ == old(v)@,
        old(v)@.len() > 0 ==> exists|k: int| head_shifted(*is_less, old(v)@, k, final(v)@),
        forall|lt: spec_fn(T, T) -> bool|
            #[trigger] answers_by(*is_less, lt) ==> (sorted_by(
                lt,
                old(v)@.subrange(1, old(v)@.len() as int),
            ) ==> sorted_by(lt, final(v)@)) && (sorted_by(lt, old(v)@) ==> final(v)@ == old(v)@),
{
    let ghost f = *is_less;
    let ghost s0 = v@;
    let len = v.len();
    if len < 2 {
        proof {
            if len == 1 {
                assert(v@ =~= s0.subrange(1, 1) + seq![s0[0]] + s0.subrange(1, 1));
                assert(head_shifted(f, s0, 0, v@));
            }
            assert forall|lt: spec_fn(T, T) -> bool| #[trigger] answers_by(f, lt) implies (
                sorted_by(lt, s0.subrange(1, len as int)) ==> sorted_by(lt, v@)) && (sorted_by(lt, s0)
                ==> v@ == s0) by {}
        }
        return;
    }
    let ghost x = s0[0];
    let ghost mut k: int = 0;
    // If the first two elements are out of order...
    if is_less(&v[1], &v[0]) {
        swap(v, 0, 1);
        proof {
            assert(v@ =~= s0.subrange(1, 2) + seq![x] + s0.subrange(2, len as int));
        }
        let mut i: usize = 1;
        while i + 1 < len
            invariant
                f == *is_less,
                callable::<T, F>(*is_less),
                s0.len() == len,
                x == s0[0],
                1 <= i < len,
                permutation(s0, v@),
                v@ == s0.subrange(1, i + 1) + seq![x] + s0.subrange(i + 1, len as int),
                forall|j: int| 1 <= j <= i ==> less(f, #[trigger] s0[j], x),
            ensures
                i + 1 == len || not_less(f, s0[i + 1], x),
            decreases len - i,
        {
            assert(v@[i as int] == x && v@[i + 1] == s0[i + 1]);
            if !is_less(&v[i + 1], &v[i]) {
                break;
            }
            // Move the element one place to the right.
            let ghost s1 = v@;
            swap(v, i, i + 1);
            proof {
                let w = s0.subrange(1, i + 2) + seq![x] + s0.subrange(i + 2, len as int);
                assert(v@.len() == w.len());
                assert forall|m: int| 0 <= m < len implies #[trigger] v@[m] == w[m] by {
                    if m < i {
                        assert(v@[m] == s1[m]);
                        assert(w[m] == s0[m + 1]);
                    } else if m == i {
                        assert(w[m] == s0[i + 1]);
                    } else if m == i + 1 {
                        assert(w[m] == x);
                    } else {
                        assert(v@[m] == s1[m]);
                        assert(w[m] == s0[m]);
                    }
                }
                assert(v@ =~= w);
            }
            i += 1;
        }
        proof {
            k = i as int;
        }
    } else {
        proof {
            assert(not_less(f, s0[1], s0[0]));
            assert(v@ =~= s0.subrange(1, 1) + seq![x] + s0.subrange(1, len as int));
        }
    }
    proof {
        assert(head_shifted(f, s0, k, v@));
        assert forall|lt: spec_fn(T, T) -> bool| #[trigger] answers_by(f, lt) implies (sorted_by(
            lt,
            s0.subrange(1, len as int),
        ) ==> sorted_by(lt, v@)) && (sorted_by(lt, s0) ==> v@ == s0) by {
            lemma_head_shifted_order(f, lt, s0, k, v@);
        }
    }
}

/// Sorts `v` by inserting each element into the sorted run before it.
pub fn insertion_sort<T, F: Fn(&T, &T) -> bool>(v: &mut [T], is_less: &F)
    requires
        callable::<T, F>(*is_less),
    ensures
        permutation(old(v)@, final(v)@),
        forall|lt: spec_fn(T, T) -> bool|
            #[trigger] answers_by(*is_less, lt) ==> sorted_by(lt, final(v)@) && (sorted_by(
                lt,
                old(v)@,
            ) ==> final(v)@ == old(v)@),
{
    let ghost f = *is_less;
    let len = v.len();
    let ghost mut front_out: Seq<T> = Seq::empty();
    let ghost mut back_out: Seq<T> = Seq::empty();
    let mut i: usize = 1;
    while i < len
        invariant
            f == *is_less,
            callable::<T, F>(*is_less),
            v@.len() == len,
            1 <= i,
            i <= len || len == 0,
            permutation(old(v)@, v@),
            forall|lt: spec_fn(T, T) -> bool|
                #[trigger] answers_by(f, lt) ==> (len > 0 ==> sorted_by(lt, v@.subrange(0, i as int)))
                    && (sorted_by(lt, old(v)@) ==> v@ == old(v)@),
        decreases len - i,
    {
        let ghost s1 = v@;
        {
            let (front, back) = v.split_at_mut(i + 1);
            let ghost fr0 = front@;
            proof {
                assert(fr0.subrange(0, i as int) =~= s1.subrange(0, i as int));
            }
            shift_tail(front, is_less);
            proof {
                lemma_permutation_concat(fr0, front@, back@, back@);
                assert(s1 =~= fr0 + back@);
                lemma_permutation_len(fr0, front@);
                front_out = front@;
                back_out = back@;
                assert forall|lt: spec_fn(T, T) -> bool| #[trigger] answers_by(f, lt) implies (
                    sorted_by(lt, fr0.subrange(0, i as int)) ==> sorted_by(lt, front@)) && (sorted_by(
                    lt,
                    old(v)@,
                ) ==> front@ == fr0) by {
                    if sorted_by(lt, old(v)@) {
                        assert forall|a: int, b: int| 0 <= a < b < fr0.len() implies !lt(
                            #[trigger] fr0[b],
                            #[trigger] fr0[a],
                        ) by {
                            assert(fr0[b] == s1[b] && fr0[a] == s1[a]);
                        }
                    }
                }
            }
        }
        proof {
            assert(v@ == front_out + back_out);
            assert(v@.subrange(0, i + 1) =~= front_out);
            assert forall|lt: spec_fn(T, T) -> bool| #[trigger] answers_by(f, lt) implies (len > 0
                ==> sorted_by(lt, v@.subrange(0, i + 1))) && (sorted_by(lt, old(v)@) ==> v@ == old(
                v,
            )@) by {
                if sorted_by(lt, old(v)@) {
                    assert(v@ =~= s1);
                }
            }
        }
        i += 1;
    }
    proof {
        if len > 0 {
            assert(v@.subrange(0, len as int) =~= v@);
        }
    }
}

/// Scans `v` from position `i` for the next pair of adjacent elements that
/// are out of order, and returns the position of the second one, or a
/// position not below the length when there is none.
fn find_out_of_order<T, F: Fn(&T, &T) -> bool>(v: &[T], is_less: &F, i: usize) -> (r: usize)
    requires
        callable::<T, F>(*is_less),
        1 <= i,
        v@.len() > 0 ==> i <= v@.len(),
    ensures
        i <= r,
        v@.len() > 0 ==> r <= v@.len(),
        r >= v@.len() || less(*is_less, v@[r as int], v@[r - 1]),
        forall|lt: spec_fn(T, T) -> bool|
            #[trigger] answers_by(*is_less, lt) && v@.len() > 0 && sorted_by(lt, v@.subrange(0, i as int))
                ==> sorted_by(lt, v@.subrange(0, r as int)),
{
    let ghost f = *is_less;
    let len = v.len();
    let mut r = i;
    loop
        invariant
            f == *is_less,
            callable::<T, F>(*is_less),
            v@.len() == len,
            1 <= i <= r,
            len > 0 ==> r <= len,
            forall|lt: spec_fn(T, T) -> bool|
                #[trigger] answers_by(f, lt) && len > 0 && sorted_by(lt, v@.subrange(0, i as int))
                    ==> sorted_by(lt, v@.subrange(0, r as int)),
        ensures
            r >= len || less(f, v@[r as int], v@[r - 1]),
        decreases len - r,
    {
        if r >= len {
            break;
        }
        if is_less(&v[r], &v[r - 1]) {
            break;
        }
        proof {
            assert(not_less(f, v@[r as int], v@[r - 1]));
            assert forall|lt: spec_fn(T, T) -> bool| #[trigger] answers_by(f, lt) && len > 0 && sorted_by(
                lt,
                v@.subrange(0, i as int),
            ) implies sorted_by(lt, v@.subrange(0, r + 1)) by {
                let p = v@.subrange(0, r + 1);
                let q = v@.subrange(0, r as int);
                assert forall|a: int, b: int| 0 <= a < b < r + 1 implies !lt(#[trigger] p[b], #[trigger] p[a]) by {
                    if b == r {
                        if a < r - 1 {
                            assert(!lt(q[r - 1], q[a]));
                            lemma_neg_trans(lt, v@[r as int], v@[r - 1], v@[a]);
                        }
                    } else {
                        assert(p[b] == q[b] && p[a] == q[a]);
                    }
                }
            }
        }
        r += 1;
    }
    r
}

/// Partially sorts `v` by shifting a few out-of-order elements into place.
/// Returns `true` exactly when `v` ends up sorted. Slices shorter than
/// `SHORTEST_SHIFTING` are left as they are.
pub fn partial_insertion_sort<T, F: Fn(&T, &T) -> bool>(v: &mut [T], is_less: &F) -> (sorted: bool)
    requires
        callable::<T, F>(*is_less),
    ensures
        permutation(old(v)@, final(v)@),
        old(v)@.len() < SHORTEST_SHIFTING ==> final(v)@ == old(v)@,
        forall|lt: spec_fn(T, T) -> bool|
            #[trigger] answers_by(*is_less, lt) ==> (sorted <==> sorted_by(lt, final(v)@)) && (
            sorted_by(lt, old(v)@) ==> final(v)@ == old(v)@),
        forall|lt: spec_fn(T, T) -> bool, j: int|
            #![trigger answers_by(*is_less, lt), one_swap_sorted(lt, old(v)@, j)]
            answers_by(*is_less, lt) && old(v)@.len() >= SHORTEST_SHIFTING && one_swap_sorted(
                lt,
                old(v)@,
                j,
            ) ==> sorted,
{
    let ghost f = *is_less;
    let ghost mut front_out: Seq<T> = Seq::empty();
    let ghost mut back_out: Seq<T> = Seq::empty();
    let ghost mut fr0_out: Seq<T> = Seq::empty();
    let ghost mut bk0_out: Seq<T> = Seq::empty();
    let len = v.len();
    let mut i: usize = 1;
    let mut step: usize = 0;
    proof {
        assert forall|lt: spec_fn(T, T) -> bool| #[trigger] answers_by(f, lt) && len > 0 implies sorted_by(
            lt,
            v@.subrange(0, 1),
        ) by {
            lemma_asym(lt, v@[0], v@[0]);
        }
    }
    while step < MAX_STEPS
        invariant
            f == *is_less,
            callable::<T, F>(*is_less),
            v@.len() == len,
            old(v)@.len() == len,
            1 <= i,
            len > 0 ==> i <= len,
            permutation(old(v)@, v@),
            len < SHORTEST_SHIFTING ==> v@ == old(v)@,
            forall|lt: spec_fn(T, T) -> bool|
                #[trigger] answers_by(f, lt) ==> (len > 0 ==> sorted_by(lt, v@.subrange(0, i as int)))
                    && (sorted_by(lt, old(v)@) ==> v@ == old(v)@),
            forall|lt: spec_fn(T, T) -> bool, j: int|
                #![trigger answers_by(f, lt), one_swap_sorted(lt, old(v)@, j)]
                answers_by(f, lt) && len >= SHORTEST_SHIFTING && one_swap_sorted(lt, old(v)@, j) ==> (
                step == 0 && v@ == old(v)@ && i == 1) || sorted_by(lt, v@),
        decreases MAX_STEPS - step,
    {
        // Find the next pair of adjacent out-of-order elements.
        i = find_out_of_order(v, is_less, i);

        // Are we done?
        if i >= len {
            proof {
                lemma_no_pair_left(f, v@, i as int);
            }
            return true;
        }

        // Don't shift elements on short slices.
        if len < SHORTEST_SHIFTING {
            proof {
                lemma_pair_left(f, v@, i as int);
            }
            return false;
        }

        // Swap the found pair of elements. This puts them in correct order.
        let ghost sp = v@;
        proof {
            lemma_pair_left(f, v@, i as int);
            assert forall|lt: spec_fn(T, T) -> bool, j: int|
                #![trigger answers_by(f, lt), one_swap_sorted(lt, old(v)@, j)]
                answers_by(f, lt) && len >= SHORTEST_SHIFTING && one_swap_sorted(lt, old(v)@, j)
                    implies step == 0 && sp == old(v)@ && i == j by {
                if !(step == 0 && sp == old(v)@) {
                    assert(sorted_by(lt, sp));
                    assert(!sorted_by(lt, sp));
                } else {
                    lemma_first_pair(f, lt, sp, j, i as int);
                }
            }
        }
        swap(v, i - 1, i);
        let ghost s1 = v@;
        {
            let (front, back) = v.split_at_mut(i);
            let ghost fr0 = front@;
            let ghost bk0 = back@;
            proof {
                fr0_out = fr0;
                bk0_out = bk0;
            }
            // Shift the smaller element to the left.
            shift_tail(front, is_less);
            // Shift the greater element to the right.
            shift_head(back, is_less);
            proof {
                lemma_permutation_concat(fr0, front@, bk0, back@);
                assert(s1 =~= fr0 + bk0);
                lemma_permutation_len(fr0, front@);
                lemma_permutation_len(bk0, back@);
                front_out = front@;
                back_out = back@;
                assert forall|lt: spec_fn(T, T) -> bool| #[trigger] answers_by(f, lt) implies sorted_by(
                    lt,
                    front@,
                ) by {
                    let a = sp.subrange(0, i as int);
                    let b = fr0.subrange(0, i - 1);
                    assert forall|x: int, y: int| 0 <= x < y < b.len() implies !lt(
                        #[trigger] b[y],
                        #[trigger] b[x],
                    ) by {
                        assert(b[y] == a[y] && b[x] == a[x]);
                    }
                }
            }
        }
        proof {
            assert(v@ == front_out + back_out);
            assert(v@.subrange(0, i as int) =~= front_out);
            assert forall|lt: spec_fn(T, T) -> bool, j: int|
                #![trigger answers_by(f, lt), one_swap_sorted(lt, old(v)@, j)]
                answers_by(f, lt) && len >= SHORTEST_SHIFTING && one_swap_sorted(lt, old(v)@, j)
                    implies sorted_by(lt, v@) by {
                assert(s1 == swapped(old(v)@, j - 1, j));
                let a = s1.subrange(0, i as int);
                let b = s1.subrange(i as int, len as int);
                assert forall|x: int, y: int| 0 <= x < y < a.len() implies !lt(#[trigger] a[y], #[trigger] a[x]) by {
                    assert(a[y] == s1[y] && a[x] == s1[x]);
                }
                assert forall|x: int, y: int| 0 <= x < y < b.len() implies !lt(#[trigger] b[y], #[trigger] b[x]) by {
                    assert(b[y] == s1[i + y] && b[x] == s1[i + x]);
                }
                assert(a =~= fr0_out);
                assert(b =~= bk0_out);
                assert(v@ =~= s1);
            }
        }
        step += 1;
    }

    // See whether the repairs sorted the slice.
    i = find_out_of_order(v, is_less, i);
    proof {
        if i >= len {
            lemma_no_pair_left(f, v@, i as int);
        } else {
            lemma_pair_left(f, v@, i as int);
        }
    }
    i >= len
}

/// `s` becomes sorted by `lt` when its adjacent elements at `j - 1` and `j`
/// are exchanged.
pub open spec fn one_swap_sorted<T>(lt: spec_fn(T, T) -> bool, s: Seq<T>, j: int) -> bool {
    1 <= j < s.len() && sorted_by(lt, swapped(s, j - 1, j))
}

/// In a slice that one exchange at `j - 1`, `j` sorts, the only adjacent
/// pair that can be found out of order is that one.
proof fn lemma_first_pair<T, F: Fn(&T, &T) -> bool>(
    f: F,
    lt: spec_fn(T, T) -> bool,
    s: Seq<T>,
    j: int,
    r: int,
)
    requires
        answers_by(f, lt),
        one_swap_sorted(lt, s, j),
        1 <= r < s.len(),
        less(f, s[r], s[r - 1]),
    ensures
        r == j,
{
    let w = swapped(s, j - 1, j);
    assert(lt(s[r], s[r - 1]));
    if r < j - 1 {
        assert(w[r] == s[r] && w[r - 1] == s[r - 1]);
    } else if r == j - 1 {
        assert(w[j] == s[r] && w[r - 1] == s[r - 1]);
    } else if r == j + 1 {
        assert(w[r] == s[r] && w[j - 1] == s[r - 1]);
    } else if r > j + 1 {
        assert(w[r] == s[r] && w[r - 1] == s[r - 1]);
    }
}

/// A slice sorted up to a position not below its length is sorted.
proof fn lemma_no_pair_left<T, F: Fn(&T, &T) -> bool>(f: F, s: Seq<T>, i: int)
    requires
        i >= s.len(),
        s.len() > 0 ==> i <= s.len(),
    ensures
        forall|lt: spec_fn(T, T) -> bool|
            #[trigger] answers_by(f, lt) && (s.len() > 0 ==> sorted_by(lt, s.subrange(0, i)))
                ==> sorted_by(lt, s),
{
    if s.len() > 0 {
        assert(s.subrange(0, i) =~= s);
    }
}

/// A slice with an adjacent pair found out of order is not sorted.
proof fn lemma_pair_left<T, F: Fn(&T, &T) -> bool>(f: F, s: Seq<T>, i: int)
    requires
        1 <= i < s.len(),
        less(f, s[i], s[i - 1]),
    ensures
        forall|lt: spec_fn(T, T) -> bool| #[trigger] answers_by(f, lt) ==> !sorted_by(lt, s),
{
    assert forall|lt: spec_fn(T, T) -> bool| #[trigger] answers_by(f, lt) implies !sorted_by(lt, s) by {
        assert(lt(s[i], s[i - 1]));
    }
}

} // verus!
