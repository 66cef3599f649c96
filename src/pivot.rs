//! Choosing a pivot, and scattering elements when partitions come out
//! unbalanced.
use vstd::prelude::*;
use crate::model::{
    answers_by, callable, lemma_asym, lemma_less_le, lemma_neg_trans, less, not_less, permutation,
    sorted_by, swap, swapped,
};

verus! {

/// Slices at least this long take the median of three medians as pivot.
pub const SHORTEST_MEDIAN_OF_MEDIANS: usize = 50;

/// Maximum number of swaps that choosing a pivot performs.
pub const MAX_SWAPS: usize = 4 * 3;

/// One step of the xorshift generator from Marsaglia's "Xorshift RNGs".
pub open spec fn xorshift32(x: u32) -> u32 {
    let a = x ^ (x << 13u32);
    let b = a ^ (a >> 17u32);
    b ^ (b << 5u32)
}

/// `usize` is at most 32 bits wide.
pub open spec fn narrow_usize() -> bool {
    vstd::layout::size_of::<usize>() <= 4
}

/// The state of the generator after drawing one number from `state`: one
/// step where `usize` is narrow, two steps otherwise.
pub open spec fn next_state(state: u32) -> u32 {
    if narrow_usize() {
        xorshift32(state)
    } else {
        xorshift32(xorshift32(state))
    }
}

/// The number drawn from the generator in `state`, as wide as `usize`.
pub open spec fn draw(state: u32) -> u64 {
    if narrow_usize() {
        xorshift32(state) as u64
    } else {
        (((xorshift32(state) as u64) << 32u64) | (xorshift32(xorshift32(state)) as u64)) & (
        usize::MAX as u64)
    }
}

/// The state of the generator seeded with `seed` after `i` numbers were
/// drawn.
pub open spec fn state_after(seed: u32, i: nat) -> u32
    decreases i,
{
    if i == 0 {
        seed
    } else {
        next_state(state_after(seed, (i - 1) as nat))
    }
}

/// The result of doubling `m` until it is at least `len`.
pub open spec fn double_until(len: nat, m: nat) -> nat
    decreases if m >= len {
        0
    } else {
        len - m
    },
{
    if m == 0 || m >= len {
        m
    } else {
        double_until(len, 2 * m)
    }
}

/// The position that the `i`-th exchange of `break_patterns` takes for a
/// slice of length `len`: a drawn number modulo the least power of two not
/// below `len`, less `len` when it is still too large.
pub open spec fn pattern_target(len: nat, i: nat) -> int {
    let other = (draw(state_after(#[verifier::truncate] (len as u32), i)) as u128) & ((double_until(len, 1) - 1) as u128);
    if other >= len {
        other - len
    } else {
        other as int
    }
}

/// `s` after the first `k` exchanges of `break_patterns`.
pub open spec fn patterned<T>(s: Seq<T>, k: nat) -> Seq<T>
    decreases k,
{
    if k == 0 {
        s
    } else {
        let i = (k - 1) as nat;
        swapped(patterned(s, i), s.len() / 4 * 2 - 1 + i, pattern_target(s.len(), i))
    }
}

/// Advances the generator and returns its new state.
fn gen_u32(random: &mut u32) -> (r: u32)
    ensures
        r == xorshift32(*old(random)),
        *final(random) == r,
{
    let mut r = *random;
    r ^= r << 13;
    r ^= r >> 17;
    r ^= r << 5;
    *random = r;
    r
}

/// A pseudorandom number as wide as `usize`, from one or two steps of the
/// generator.
fn gen_usize(random: &mut u32) -> (r: u64)
    ensures
        r == draw(*old(random)),
        *final(random) == next_state(*old(random)),
        r <= usize::MAX,
{
    if core::mem::size_of::<usize>() <= 4 {
        let x = gen_u32(random) as u64;
        proof {
            assert(x <= u32::MAX);
        }
        x
    } else {
        let hi = gen_u32(random) as u64;
        let lo = gen_u32(random) as u64;
        let x = (hi << 32u64) | lo;
        x & (usize::MAX as u64)
    }
}

/// Reverses `v` in place.
pub fn reverse<T>(v: &mut [T])
    ensures
        final(v)@ == old(v)@.reverse(),
        permutation(old(v)@, final(v)@),
{
    let len = v.len();
    let mut i: usize = 0;
    while i < len / 2
        invariant
            v@.len() == len,
            i <= len / 2,
            permutation(old(v)@, v@),
            forall|k: int| 0 <= k < i ==> #[trigger] v@[k] == old(v)@[len - 1 - k],
            forall|k: int| len - i <= k < len ==> #[trigger] v@[k] == old(v)@[len - 1 - k],
            forall|k: int| i <= k < len - i ==> #[trigger] v@[k] == old(v)@[k],
        decreases len / 2 - i,
    {
        let ghost s = v@;
        swap(v, i, len - 1 - i);
        proof {
            assert forall|k: int| 0 <= k < i + 1 implies #[trigger] v@[k] == old(v)@[len - 1 - k] by {
                if k < i {
                    assert(v@[k] == s[k]);
                }
            }
            assert forall|k: int| len - (i + 1) <= k < len implies #[trigger] v@[k] == old(v)@[len - 1 - k] by {
                if k > len - 1 - i {
                    assert(v@[k] == s[k]);
                }
            }
            assert forall|k: int| i + 1 <= k < len - (i + 1) implies #[trigger] v@[k] == old(v)@[k] by {
                assert(v@[k] == s[k]);
            }
        }
        i += 1;
    }
    proof {
        assert forall|k: int| 0 <= k < len implies #[trigger] v@[k] == old(v)@.reverse()[k] by {
            if i <= k < len - i {
                assert(k == len - 1 - k);
            }
        }
        assert(v@ =~= old(v)@.reverse());
    }
}

/// Scatters some elements around in an attempt to break patterns that might
/// cause imbalanced partitions in quicksort. The positions come from a
/// generator seeded with the length, so the outcome depends on `v` alone.
pub fn break_patterns<T>(v: &mut [T])
    ensures
        final(v)@.len() == old(v)@.len(),
        permutation(old(v)@, final(v)@),
        old(v)@.len() < 8 ==> final(v)@ == old(v)@,
        old(v)@.len() >= 8 ==> final(v)@ == patterned(old(v)@, 3),
{
    let len = v.len();
    if len >= 8 {
        let mut random = #[verifier::truncate] (len as u32);

        // Take random numbers modulo this number: the least power of two not
        // below `len`.
        let mut modulus: u128 = 1;
        while modulus < len as u128
            invariant
                1 <= modulus,
                modulus == 1 || modulus < 2 * len,
                double_until(len as nat, modulus as nat) == double_until(len as nat, 1),
            decreases 2 * len - modulus,
        {
            modulus = modulus * 2;
        }

        // Some pivot candidates will be in the nearby of this index.
        let pos = len / 4 * 2;

        let mut i: usize = 0;
        while i < 3
            invariant
                v@.len() == len,
                old(v)@.len() == len,
                len >= 8,
                i <= 3,
                pos == len / 4 * 2,
                1 <= modulus < 2 * len,
                modulus == double_until(len as nat, 1),
                random == state_after(#[verifier::truncate] (len as u32), i as nat),
                permutation(old(v)@, v@),
                v@ == patterned(old(v)@, i as nat),
            decreases 3 - i,
        {
            // A random number modulo `len`: first modulo the power of two,
            // then less `len` once if it is still too large.
            let m = modulus - 1;
            let x = gen_usize(&mut random) as u128;
            let mut other = x & m;
            assert(other <= m) by (bit_vector)
                requires
                    other == x & m,
            ;
            if other >= len as u128 {
                other -= len as u128;
            }
            proof {
                assert(other as int == pattern_target(len as nat, i as nat));
            }
            swap(v, pos - 1 + i, other as usize);
            proof {
                assert(patterned(old(v)@, (i + 1) as nat) == swapped(
                    patterned(old(v)@, i as nat),
                    len / 4 * 2 - 1 + i,
                    pattern_target(len as nat, i as nat),
                ));
            }
            i += 1;
        }
    }
}

/// Under every strict weak order that the answers of `f` agree with, `s[m]`
/// is a median of `s[x]`, `s[m]`, `s[y]`: `s[x]` does not go after it and
/// `s[y]` does not go before it.
pub open spec fn median_of<T, F: Fn(&T, &T) -> bool>(f: F, s: Seq<T>, x: int, m: int, y: int) -> bool {
    forall|lt: spec_fn(T, T) -> bool|
        #[trigger] answers_by(f, lt) ==> !lt(s[m], s[x]) && !lt(s[y], s[m])
}

/// `s[x]`, `s[y]`, `s[z]` come in order by `lt`.
pub open spec fn ordered3<T>(lt: spec_fn(T, T) -> bool, s: Seq<T>, x: int, y: int, z: int) -> bool {
    !lt(s[y], s[x]) && !lt(s[z], s[y])
}

/// `s[z]` goes strictly before `s[y]`, which goes strictly before `s[x]`, by
/// `lt`.
pub open spec fn descending3<T>(lt: spec_fn(T, T) -> bool, s: Seq<T>, x: int, y: int, z: int) -> bool {
    lt(s[z], s[y]) && lt(s[y], s[x])
}

/// The candidates of pivot selection and their neighbourhoods are strictly
/// descending in `s`, which has at least `SHORTEST_MEDIAN_OF_MEDIANS`
/// elements: each of the twelve comparisons that order them swaps.
pub open spec fn candidates_descending<T>(lt: spec_fn(T, T) -> bool, s: Seq<T>) -> bool {
    let a = (s.len() / 4) as int;
    let b = (s.len() / 4 * 2) as int;
    let c = (s.len() / 4 * 3) as int;
    &&& descending3(lt, s, a - 1, a, a + 1)
    &&& descending3(lt, s, b - 1, b, b + 1)
    &&& descending3(lt, s, c - 1, c, c + 1)
    &&& descending3(lt, s, a, b, c)
}

/// The candidates of pivot selection come in order in `s`, and so does the
/// neighbourhood of each where medians of neighbourhoods are taken: ordering
/// them takes no swap.
pub open spec fn candidates_in_order<T>(lt: spec_fn(T, T) -> bool, s: Seq<T>) -> bool {
    let a = (s.len() / 4) as int;
    let b = (s.len() / 4 * 2) as int;
    let c = (s.len() / 4 * 3) as int;
    &&& s.len() >= SHORTEST_MEDIAN_OF_MEDIANS ==> ordered3(lt, s, a - 1, a, a + 1) && ordered3(
        lt,
        s,
        b - 1,
        b,
        b + 1,
    ) && ordered3(lt, s, c - 1, c, c + 1)
    &&& ordered3(lt, s, a, b, c)
}

/// `(a, b, c)` is `(x, y, z)` in some order.
pub open spec fn picks3(a: int, b: int, c: int, x: int, y: int, z: int) -> bool {
    ||| a == x && b == y && c == z
    ||| a == x && b == z && c == y
    ||| a == y && b == x && c == z
    ||| a == y && b == z && c == x
    ||| a == z && b == x && c == y
    ||| a == z && b == y && c == x
}

/// The candidate `p` that pivot selection takes near position `k` of `s`:
/// `k` itself in a slice shorter than `SHORTEST_MEDIAN_OF_MEDIANS`, and a
/// median of positions `k - 1`, `k`, `k + 1` otherwise.
pub open spec fn candidate<T, F: Fn(&T, &T) -> bool>(f: F, s: Seq<T>, k: int, p: int) -> bool {
    if s.len() < SHORTEST_MEDIAN_OF_MEDIANS {
        p == k
    } else {
        exists|u: int, w: int| picks3(u, p, w, k - 1, k, k + 1) && median_of(f, s, u, p, w)
    }
}

/// Swaps the indices `a` and `b` when `v[b]` goes before `v[a]`, counting
/// the swap.
fn sort2<T, F: Fn(&T, &T) -> bool>(
    v: &[T],
    is_less: &F,
    swaps: &mut usize,
    a: &mut usize,
    b: &mut usize,
)
    requires
        callable::<T, F>(*is_less),
        *old(a) < v@.len(),
        *old(b) < v@.len(),
        *old(swaps) < MAX_SWAPS,
    ensures
        (*final(a) == *old(a) && *final(b) == *old(b) && *final(swaps) == *old(swaps)) || (
        *final(a) == *old(b) && *final(b) == *old(a) && *final(swaps) == *old(swaps) + 1),
        forall|lt: spec_fn(T, T) -> bool|
            #[trigger] answers_by(*is_less, lt) ==> !lt(v@[*final(b) as int], v@[*final(a) as int])
                && (*final(swaps) == *old(swaps) <==> !lt(v@[*old(b) as int], v@[*old(a) as int])),
{
    if is_less(&v[*b], &v[*a]) {
        proof {
            assert(less(*is_less, v@[*b as int], v@[*a as int]));
            assert forall|lt: spec_fn(T, T) -> bool| #[trigger] answers_by(*is_less, lt) implies !lt(
                v@[*old(a) as int],
                v@[*old(b) as int],
            ) by {
                lemma_asym(lt, v@[*old(b) as int], v@[*old(a) as int]);
            }
        }
        core::mem::swap(a, b);
        *swaps += 1;
    } else {
        proof {
            assert(not_less(*is_less, v@[*b as int], v@[*a as int]));
        }
    }
}

/// Swaps the indices so that `v[a]`, `v[b]`, `v[c]` come in order.
fn sort3<T, F: Fn(&T, &T) -> bool>(
    v: &[T],
    is_less: &F,
    swaps: &mut usize,
    a: &mut usize,
    b: &mut usize,
    c: &mut usize,
)
    requires
        callable::<T, F>(*is_less),
        *old(a) < v@.len(),
        *old(b) < v@.len(),
        *old(c) < v@.len(),
        *old(swaps) + 3 <= MAX_SWAPS,
    ensures
        *final(a) < v@.len(),
        *final(b) < v@.len(),
        *final(c) < v@.len(),
        *old(swaps) <= *final(swaps) <= *old(swaps) + 3,
        *final(swaps) == *old(swaps) ==> *final(a) == *old(a) && *final(b) == *old(b) && *final(c)
            == *old(c),
        picks3(
            *final(a) as int,
            *final(b) as int,
            *final(c) as int,
            *old(a) as int,
            *old(b) as int,
            *old(c) as int,
        ),
        median_of(*is_less, v@, *final(a) as int, *final(b) as int, *final(c) as int),
        forall|lt: spec_fn(T, T) -> bool|
            #[trigger] answers_by(*is_less, lt) ==> (*final(swaps) == *old(swaps) <==> ordered3(
                lt,
                v@,
                *old(a) as int,
                *old(b) as int,
                *old(c) as int,
            )),
        forall|lt: spec_fn(T, T) -> bool|
            #[trigger] answers_by(*is_less, lt) && descending3(
                lt,
                v@,
                *old(a) as int,
                *old(b) as int,
                *old(c) as int,
            ) ==> *final(swaps) == *old(swaps) + 3 && *final(a) == *old(c) && *final(b) == *old(b)
                && *final(c) == *old(a),
{
    let ghost s0 = *swaps;
    let ghost (a0, b0, c0) = (*a as int, *b as int, *c as int);
    sort2(v, is_less, swaps, a, b);
    let ghost s1 = *swaps;
    sort2(v, is_less, swaps, b, c);
    let ghost s2 = *swaps;
    sort2(v, is_less, swaps, a, b);
    proof {
        assert forall|lt: spec_fn(T, T) -> bool| #[trigger] answers_by(*is_less, lt) && descending3(
            lt,
            v@,
            a0,
            b0,
            c0,
        ) implies *swaps == s0 + 3 && *a == c0 && *b == b0 && *c == a0 by {
            lemma_asym(lt, v@[b0], v@[a0]);
            lemma_less_le(lt, v@[c0], v@[b0], v@[a0]);
            assert(s1 == s0 + 1);
            assert(s2 == s1 + 1);
        }
        assert forall|lt: spec_fn(T, T) -> bool| #[trigger] answers_by(*is_less, lt) implies (*swaps
            == s0 <==> ordered3(lt, v@, a0, b0, c0)) by {
            if ordered3(lt, v@, a0, b0, c0) {
                assert(s1 == s0);
                assert(s2 == s1);
            }
        }
    }
    proof {
        assert forall|lt: spec_fn(T, T) -> bool| #[trigger] answers_by(*is_less, lt) implies !lt(
            v@[*b as int],
            v@[*a as int],
        ) && !lt(v@[*c as int], v@[*b as int]) by {
            lemma_neg_trans(lt, v@[*c as int], v@[*b as int], v@[*a as int]);
        }
    }
}

/// Finds the median of `v[a - 1]`, `v[a]`, `v[a + 1]` and stores its index
/// into `a`.
fn sort_adjacent<T, F: Fn(&T, &T) -> bool>(v: &[T], is_less: &F, swaps: &mut usize, a: &mut usize)
    requires
        callable::<T, F>(*is_less),
        1 <= *old(a),
        *old(a) + 1 < v.len(),
        *old(swaps) + 3 <= MAX_SWAPS,
    ensures
        *final(a) < v@.len(),
        *old(swaps) <= *final(swaps) <= *old(swaps) + 3,
        *final(swaps) == *old(swaps) ==> *final(a) == *old(a),
        *old(a) - 1 <= *final(a) <= *old(a) + 1,
        exists|u: int, w: int|
            picks3(u, *final(a) as int, w, *old(a) - 1, *old(a) as int, *old(a) + 1) && median_of(
                *is_less,
                v@,
                u,
                *final(a) as int,
                w,
            ),
        forall|lt: spec_fn(T, T) -> bool|
            #[trigger] answers_by(*is_less, lt) ==> (*final(swaps) == *old(swaps) <==> ordered3(
                lt,
                v@,
                *old(a) - 1,
                *old(a) as int,
                *old(a) + 1,
            )),
        forall|lt: spec_fn(T, T) -> bool|
            #[trigger] answers_by(*is_less, lt) && descending3(
                lt,
                v@,
                *old(a) - 1,
                *old(a) as int,
                *old(a) + 1,
            ) ==> *final(swaps) == *old(swaps) + 3 && *final(a) == *old(a),
{
    let tmp = *a;
    let mut lo = tmp - 1;
    let mut hi = tmp + 1;
    sort3(v, is_less, swaps, &mut lo, a, &mut hi);
    proof {
        assert(picks3(lo as int, *a as int, hi as int, tmp - 1, tmp as int, tmp + 1));
        assert(median_of(*is_less, v@, lo as int, *a as int, hi as int));
    }
}

/// Chooses a pivot in `v` and returns its index, and `true` when `v` is
/// likely sorted already. A slice shorter than 8 takes its middle element.
/// Otherwise the pivot is the median of three candidates near positions
/// `len / 4`, `len / 4 * 2` and `len / 4 * 3`. When ordering the candidates
/// takes `MAX_SWAPS` swaps, `v` is likely descending, and is reversed.
pub fn choose_pivot<T, F: Fn(&T, &T) -> bool>(v: &mut [T], is_less: &F) -> (res: (usize, bool))
    requires
        callable::<T, F>(*is_less),
    ensures
        old(v)@.len() > 0 ==> res.0 < final(v)@.len(),
        final(v)@ == old(v)@ || (final(v)@ == old(v)@.reverse() && res.1),
        permutation(old(v)@, final(v)@),
        old(v)@.len() < 8 ==> res.0 == old(v)@.len() / 2 && res.1 && final(v)@ == old(v)@,
        old(v)@.len() < SHORTEST_MEDIAN_OF_MEDIANS ==> final(v)@ == old(v)@,
        old(v)@.len() >= 8 ==> exists|p: int, q: int, r: int, x: int, m: int, y: int|
            {
                &&& candidate(*is_less, old(v)@, (old(v)@.len() / 4) as int, p)
                &&& candidate(*is_less, old(v)@, (old(v)@.len() / 4 * 2) as int, q)
                &&& candidate(*is_less, old(v)@, (old(v)@.len() / 4 * 3) as int, r)
                &&& picks3(x, m, y, p, q, r)
                &&& median_of(*is_less, old(v)@, x, m, y)
                &&& (final(v)@ == old(v)@ && res.0 == m && (res.1 ==> m == old(v)@.len() / 4 * 2))
                    || (final(v)@ == old(v)@.reverse() && res.0 == old(v)@.len() - 1 - m)
            },
        forall|lt: spec_fn(T, T) -> bool|
            #[trigger] answers_by(*is_less, lt) && old(v)@.len() >= 8 ==> (candidates_in_order(
                lt,
                old(v)@,
            ) ==> res.1 && final(v)@ == old(v)@ && res.0 == old(v)@.len() / 4 * 2) && (
            !candidates_in_order(lt, old(v)@) ==> !res.1 || final(v)@ == old(v)@.reverse()),
        forall|lt: spec_fn(T, T) -> bool|
            #[trigger] answers_by(*is_less, lt) && sorted_by(lt, old(v)@) ==> res.1 && final(v)@
                == old(v)@,
        forall|lt: spec_fn(T, T) -> bool|
            #[trigger] answers_by(*is_less, lt) && old(v)@.len() >= SHORTEST_MEDIAN_OF_MEDIANS
                && candidates_descending(lt, old(v)@) ==> final(v)@ == old(v)@.reverse() && res.1
                && res.0 == old(v)@.len() - 1 - old(v)@.len() / 4 * 2,
{
    let ghost s0 = v@;
    let len = v.len();

    // Three indices near which we are going to choose a pivot.
    let mut a = len / 4 * 1;
    let mut b = len / 4 * 2;
    let mut c = len / 4 * 3;
    let ghost mut p: int = a as int;
    let ghost mut q: int = b as int;
    let ghost mut r: int = c as int;

    // Counts the total number of swaps we are about to perform while
    // sorting indices.
    let mut swaps: usize = 0;

    if len >= 8 {
        if len >= SHORTEST_MEDIAN_OF_MEDIANS {
            // Find medians in the neighborhoods of `a`, `b`, and `c`.
            sort_adjacent(v, is_less, &mut swaps, &mut a);
            let ghost w1 = swaps;
            sort_adjacent(v, is_less, &mut swaps, &mut b);
            let ghost w2 = swaps;
            sort_adjacent(v, is_less, &mut swaps, &mut c);
            proof {
                assert forall|lt: spec_fn(T, T) -> bool| #[trigger] answers_by(*is_less, lt)
                    && candidates_descending(lt, s0) implies swaps == 9 && a == len / 4 && b == len
                    / 4 * 2 && c == len / 4 * 3 by {
                    assert(w1 == 3 && w2 == 6);
                }
                assert forall|lt: spec_fn(T, T) -> bool| #[trigger] answers_by(*is_less, lt) implies (swaps
                    == 0 <==> ordered3(lt, s0, len / 4 - 1, (len / 4) as int, len / 4 + 1) && ordered3(
                    lt,
                    s0,
                    len / 4 * 2 - 1,
                    (len / 4 * 2) as int,
                    len / 4 * 2 + 1,
                ) && ordered3(lt, s0, len / 4 * 3 - 1, (len / 4 * 3) as int, len / 4 * 3 + 1)) by {
                    if swaps == 0 {
                        assert(w1 == 0 && w2 == 0);
                    }
                }
            }
        }
        proof {
            p = a as int;
            q = b as int;
            r = c as int;
            assert(candidate(*is_less, s0, (len / 4) as int, p));
            assert(candidate(*is_less, s0, (len / 4 * 2) as int, q));
            assert(candidate(*is_less, s0, (len / 4 * 3) as int, r));
        }
        assert(a != b && b != c && a != c);
        // Find the median among `a`, `b`, and `c`.
        sort3(v, is_less, &mut swaps, &mut a, &mut b, &mut c);
    }

    if len < 8 {
        // Short slices take the middle element.
        return (len / 2, true);
    }
    proof {
        assert forall|lt: spec_fn(T, T) -> bool| #[trigger] answers_by(*is_less, lt) && len
            >= SHORTEST_MEDIAN_OF_MEDIANS && candidates_descending(lt, s0) implies swaps == MAX_SWAPS
            && b == len / 4 * 2 by {}
        if len >= 8 {
            assert forall|lt: spec_fn(T, T) -> bool| #[trigger] answers_by(*is_less, lt) implies (swaps
                == 0 <==> candidates_in_order(lt, s0)) && (swaps == 0 ==> b == len / 4 * 2) by {
                if len >= SHORTEST_MEDIAN_OF_MEDIANS && !candidates_in_order(lt, s0) && swaps == 0 {
                    assert(p == len / 4 && q == len / 4 * 2 && r == len / 4 * 3);
                }
            }
        }
        assert forall|lt: spec_fn(T, T) -> bool| #[trigger] answers_by(*is_less, lt) && sorted_by(lt, s0)
            implies swaps == 0 by {
            if len >= 8 {
                assert(candidates_in_order(lt, s0));
            }
        }
    }
    if swaps < MAX_SWAPS {
        proof {
            if len >= 8 {
                assert(picks3(a as int, b as int, c as int, p, q, r));
                assert(median_of(*is_less, s0, a as int, b as int, c as int));
                assert(swaps == 0 ==> b == len / 4 * 2);
                assert(v@ == s0);
            }
        }
        (b, swaps == 0)
    } else {
        // The maximum number of swaps was performed. Chances are the slice
        // is descending or mostly descending, so reversing will probably
        // help sort it faster.
        reverse(v);
        proof {
            assert(picks3(a as int, b as int, c as int, p, q, r));
            assert(median_of(*is_less, s0, a as int, b as int, c as int));
        }
        (len - 1 - b, true)
    }
}

} // verus!
