//! The mathematical model the sorting routines are stated over: what a
//! comparator answered, when it is a strict weak order, sortedness and
//! permutations of sequences.
use vstd::prelude::*;
use vstd::seq_lib::lemma_multiset_commutative;

verus! {

/// `f` may answer `true` when asked whether `a` goes strictly before `b`.
pub open spec fn less<T, F: Fn(&T, &T) -> bool>(f: F, a: T, b: T) -> bool {
    call_ensures(f, (&a, &b), true)
}

/// `f` may answer `false` when asked whether `a` goes strictly before `b`.
pub open spec fn not_less<T, F: Fn(&T, &T) -> bool>(f: F, a: T, b: T) -> bool {
    call_ensures(f, (&a, &b), false)
}

/// `f` accepts any two elements.
pub open spec fn callable<T, F: Fn(&T, &T) -> bool>(f: F) -> bool {
    forall|a: &T, b: &T| #[trigger] call_requires(f, (a, b))
}

/// `lt` is a strict weak order: asymmetric, and "not before" is transitive.
pub open spec fn strict_weak_order<T>(lt: spec_fn(T, T) -> bool) -> bool {
    &&& forall|a: T, b: T| #[trigger] lt(a, b) ==> !lt(b, a)
    &&& forall|a: T, b: T, c: T|
        #![trigger lt(a, b), lt(b, c)]
        !lt(a, b) && !lt(b, c) ==> !lt(a, c)
}

/// Every answer of `f` agrees with the strict weak order `lt`.
pub open spec fn answers_by<T, F: Fn(&T, &T) -> bool>(f: F, lt: spec_fn(T, T) -> bool) -> bool {
    &&& strict_weak_order(lt)
    &&& forall|a: T, b: T| #[trigger] less(f, a, b) ==> lt(a, b)
    &&& forall|a: T, b: T| #[trigger] not_less(f, a, b) ==> !lt(a, b)
}

/// No element of `s` goes strictly before an element on its left.
pub open spec fn sorted_by<T>(lt: spec_fn(T, T) -> bool, s: Seq<T>) -> bool {
    forall|i: int, j: int| 0 <= i < j < s.len() ==> !lt(#[trigger] s[j], #[trigger] s[i])
}

/// No element of `b` goes strictly before an element of `a`.
pub open spec fn all_le<T>(lt: spec_fn(T, T) -> bool, a: Seq<T>, b: Seq<T>) -> bool {
    forall|i: int, j: int|
        0 <= i < a.len() && 0 <= j < b.len() ==> !lt(#[trigger] b[j], #[trigger] a[i])
}

/// `b` holds the elements of `a`, each as often, in some order.
pub open spec fn permutation<T>(a: Seq<T>, b: Seq<T>) -> bool {
    a.to_multiset() == b.to_multiset()
}

/// `s` with the elements at `i` and `j` exchanged.
pub open spec fn swapped<T>(s: Seq<T>, i: int, j: int) -> Seq<T> {
    s.update(i, s[j]).update(j, s[i])
}

/// A strict weak order is asymmetric, and so irreflexive.
pub proof fn lemma_asym<T>(lt: spec_fn(T, T) -> bool, a: T, b: T)
    requires
        strict_weak_order(lt),
    ensures
        lt(a, b) ==> !lt(b, a),
        !lt(a, a),
{
}

/// "Not before" is transitive.
pub proof fn lemma_neg_trans<T>(lt: spec_fn(T, T) -> bool, a: T, b: T, c: T)
    requires
        strict_weak_order(lt),
        !lt(a, b),
        !lt(b, c),
    ensures
        !lt(a, c),
{
}

/// `a < b` and `c` not before `b` give `a < c`.
pub proof fn lemma_less_le<T>(lt: spec_fn(T, T) -> bool, a: T, b: T, c: T)
    requires
        strict_weak_order(lt),
        lt(a, b),
        !lt(c, b),
    ensures
        lt(a, c),
{
    if !lt(a, c) {
        lemma_neg_trans(lt, c, a, b);
    }
}

/// Exchanging two elements permutes a sequence.
pub proof fn lemma_swap_permutation<T>(s: Seq<T>, i: int, j: int)
    requires
        0 <= i < s.len(),
        0 <= j < s.len(),
    ensures
        permutation(s, swapped(s, i, j)),
        swapped(s, i, j).len() == s.len(),
{
    broadcast use vstd::seq_lib::group_to_multiset_ensures;
    broadcast use vstd::multiset::group_multiset_axioms;
    broadcast use vstd::seq_lib::to_multiset_update;

    assert(swapped(s, i, j).to_multiset() =~= s.to_multiset());
}

/// Permutations have the same length.
pub proof fn lemma_permutation_len<T>(a: Seq<T>, b: Seq<T>)
    requires
        permutation(a, b),
    ensures
        a.len() == b.len(),
{
    a.to_multiset_ensures();
    b.to_multiset_ensures();
}

/// What holds of every element of `a` holds of every element of a
/// permutation of `a`.
pub proof fn lemma_permutation_forall<T>(a: Seq<T>, b: Seq<T>, p: spec_fn(T) -> bool)
    requires
        permutation(a, b),
        forall|i: int| 0 <= i < a.len() ==> #[trigger] p(a[i]),
    ensures
        forall|j: int| 0 <= j < b.len() ==> #[trigger] p(b[j]),
{
    a.to_multiset_ensures();
    b.to_multiset_ensures();
    assert forall|j: int| 0 <= j < b.len() implies #[trigger] p(b[j]) by {
        assert(b.contains(b[j]));
        assert(a.to_multiset().count(b[j]) > 0);
        assert(a.contains(b[j]));
        let i = choose|i: int| 0 <= i < a.len() && a[i] == b[j];
        assert(p(a[i]));
    }
}

/// Joining permutations gives a permutation of the joined sequences.
pub proof fn lemma_permutation_concat<T>(a1: Seq<T>, b1: Seq<T>, a2: Seq<T>, b2: Seq<T>)
    requires
        permutation(a1, b1),
        permutation(a2, b2),
    ensures
        permutation(a1 + a2, b1 + b2),
{
    lemma_multiset_commutative(a1, a2);
    lemma_multiset_commutative(b1, b2);
}

/// Replacing the middle part `b` of `a + b + c` by a permutation of it
/// permutes the whole.
pub proof fn lemma_permutation_middle<T>(a: Seq<T>, b: Seq<T>, b2: Seq<T>, c: Seq<T>)
    requires
        permutation(b, b2),
    ensures
        permutation(a + b + c, a + b2 + c),
{
    lemma_permutation_concat(a, a, b, b2);
    lemma_permutation_concat(a + b, a + b2, c, c);
}

/// The order of two sequences holds of any permutations of them.
pub proof fn lemma_all_le_permutation<T>(
    lt: spec_fn(T, T) -> bool,
    a: Seq<T>,
    a2: Seq<T>,
    b: Seq<T>,
    b2: Seq<T>,
)
    requires
        all_le(lt, a, b),
        permutation(a, a2),
        permutation(b, b2),
    ensures
        all_le(lt, a2, b2),
{
    let pa = |x: T| forall|j: int| 0 <= j < b.len() ==> !lt(#[trigger] b[j], x);
    assert forall|i: int| 0 <= i < a.len() implies #[trigger] pa(a[i]) by {
        assert forall|j: int| 0 <= j < b.len() implies !lt(#[trigger] b[j], a[i]) by {
            assert(!lt(b[j], a[i]));
        }
    }
    lemma_permutation_forall(a, a2, pa);
    let pb = |y: T| forall|i: int| 0 <= i < a2.len() ==> !lt(y, #[trigger] a2[i]);
    assert forall|j: int| 0 <= j < b.len() implies #[trigger] pb(b[j]) by {
        assert forall|i: int| 0 <= i < a2.len() implies !lt(b[j], #[trigger] a2[i]) by {
            assert(pa(a2[i]));
        }
    }
    lemma_permutation_forall(b, b2, pb);
    assert forall|i: int, j: int| 0 <= i < a2.len() && 0 <= j < b2.len() implies !lt(#[trigger] b2[j],
        #[trigger] a2[i],
    ) by {
        assert(pb(b2[j]));
    }
}

/// Three sorted runs, each not after the next, make a sorted sequence.
pub proof fn lemma_sorted_concat3<T>(lt: spec_fn(T, T) -> bool, a: Seq<T>, b: Seq<T>, c: Seq<T>)
    requires
        sorted_by(lt, a),
        sorted_by(lt, b),
        sorted_by(lt, c),
        all_le(lt, a, b),
        all_le(lt, b, c),
        all_le(lt, a, c),
    ensures
        sorted_by(lt, a + b + c),
{
    let s = a + b + c;
    assert forall|i: int, j: int| 0 <= i < j < s.len() implies !lt(#[trigger] s[j],
        #[trigger] s[i],
    ) by {
        let la = a.len() as int;
        let lb = b.len() as int;
        if j < la {
            assert(s[j] == a[j] && s[i] == a[i]);
        } else if j < la + lb {
            if i < la {
                assert(s[j] == b[j - la] && s[i] == a[i]);
            } else {
                assert(s[j] == b[j - la] && s[i] == b[i - la]);
            }
        } else {
            if i < la {
                assert(s[j] == c[j - la - lb] && s[i] == a[i]);
            } else if i < la + lb {
                assert(s[j] == c[j - la - lb] && s[i] == b[i - la]);
            } else {
                assert(s[j] == c[j - la - lb] && s[i] == c[i - la - lb]);
            }
        }
    }
}

/// Parts of sequences keep the order of the wholes.
pub proof fn lemma_all_le_sub<T>(
    lt: spec_fn(T, T) -> bool,
    a: Seq<T>,
    b: Seq<T>,
    i: int,
    j: int,
    k: int,
    l: int,
)
    requires
        all_le(lt, a, b),
        0 <= i <= j <= a.len(),
        0 <= k <= l <= b.len(),
    ensures
        all_le(lt, a.subrange(i, j), b.subrange(k, l)),
{
    assert forall|x: int, y: int|
        0 <= x < j - i && 0 <= y < l - k implies !lt(#[trigger] b.subrange(k, l)[y],
        #[trigger] a.subrange(i, j)[x],
    ) by {
        assert(!lt(b[k + y], a[i + x]));
    }
}

/// Joining sequences keeps their order to a third.
pub proof fn lemma_all_le_concat<T>(
    lt: spec_fn(T, T) -> bool,
    a: Seq<T>,
    b: Seq<T>,
    c: Seq<T>,
)
    ensures
        all_le(lt, a, c) && all_le(lt, b, c) ==> all_le(lt, a + b, c),
        all_le(lt, a, b) && all_le(lt, a, c) ==> all_le(lt, a, b + c),
{
    if all_le(lt, a, c) && all_le(lt, b, c) {
        assert forall|x: int, y: int| 0 <= x < (a + b).len() && 0 <= y < c.len() implies !lt(#[trigger] c[y],
            #[trigger] (a + b)[x],
        ) by {
            if x < a.len() {
                assert((a + b)[x] == a[x]);
            } else {
                assert((a + b)[x] == b[x - a.len()]);
            }
        }
    }
    if all_le(lt, a, b) && all_le(lt, a, c) {
        assert forall|x: int, y: int| 0 <= x < a.len() && 0 <= y < (b + c).len() implies !lt(#[trigger] (b + c)[y],
            #[trigger] a[x],
        ) by {
            if y < b.len() {
                assert((b + c)[y] == b[y]);
            } else {
                assert((b + c)[y] == c[y - b.len()]);
            }
        }
    }
}

/// Exchanges the elements at `i` and `j`.
pub fn swap<T>(v: &mut [T], i: usize, j: usize)
    requires
        i < old(v)@.len(),
        j < old(v)@.len(),
    ensures
        final(v)@ == swapped(old(v)@, i as int, j as int),
        permutation(old(v)@, final(v)@),
{
    proof {
        lemma_swap_permutation(v@, i as int, j as int);
    }
    if i < j {
        let (a, b) = v.split_at_mut(j);
        core::mem::swap(&mut a[i], &mut b[0]);
    } else if j < i {
        let (a, b) = v.split_at_mut(i);
        core::mem::swap(&mut a[j], &mut b[0]);
    }
    assert(final(v)@ =~= swapped(old(v)@, i as int, j as int));
}

} // verus!
