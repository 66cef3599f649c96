//! Partitioning a slice around a pivot: block-wise, with the pivot held
//! apart, and around a run of elements equal to the pivot.
use vstd::prelude::*;
use crate::fake_usize_ptr::FakeUsizePtr;
use crate::model::{answers_by, callable, less, not_less, permutation, swap, swapped};

verus! {

/// Number of elements in a typical block.
pub const BLOCK: usize = 128;

/// `x` is one of `offs[start..end]`.
pub open spec fn is_offset(offs: Seq<u8>, start: int, end: int, x: int) -> bool {
    exists|i: int| start <= i < end && offs[i] as int == x
}

/// `offs[start..end]` is strictly increasing.
pub open spec fn increasing(offs: Seq<u8>, start: int, end: int) -> bool {
    forall|i: int, j: int| start <= i < j < end ==> offs[i] < offs[j]
}

/// The block `[l, l + block)` holds elements that go before `p`, but at the
/// offsets `offs[start..end]`, which hold elements that do not.
pub open spec fn left_block_ok<T, F: Fn(&T, &T) -> bool>(
    f: F,
    s: Seq<T>,
    p: T,
    l: int,
    block: int,
    offs: Seq<u8>,
    start: int,
    end: int,
) -> bool {
    &&& 0 <= start <= end <= offs.len()
    &&& 0 <= l
    &&& l + block <= s.len()
    &&& increasing(offs, start, end)
    &&& forall|i: int|
        start <= i < end ==> (#[trigger] offs[i] as int) < block && not_less(f, s[l + offs[i]], p)
    &&& forall|k: int|
        l <= k < l + block ==> less(f, #[trigger] s[k], p) || is_offset(offs, start, end, k - l)
}

/// The block `[r - block, r)` holds elements that do not go before `p`, but
/// at the positions `r - 1 - offs[i]` for `i` in `start..end`, which hold
/// elements that do.
pub open spec fn right_block_ok<T, F: Fn(&T, &T) -> bool>(
    f: F,
    s: Seq<T>,
    p: T,
    r: int,
    block: int,
    offs: Seq<u8>,
    start: int,
    end: int,
) -> bool {
    &&& 0 <= start <= end <= offs.len()
    &&& 0 <= r - block
    &&& r <= s.len()
    &&& increasing(offs, start, end)
    &&& forall|i: int|
        start <= i < end ==> (#[trigger] offs[i] as int) < block && less(f, s[r - 1 - offs[i]], p)
    &&& forall|k: int|
        r - block <= k < r ==> not_less(f, #[trigger] s[k], p) || is_offset(
            offs,
            start,
            end,
            r - 1 - k,
        )
}

/// The elements before `l` go before `p`; those from `r` on do not.
pub open spec fn outer_ok<T, F: Fn(&T, &T) -> bool>(f: F, s: Seq<T>, p: T, l: int, r: int) -> bool {
    &&& 0 <= l <= r <= s.len()
    &&& forall|k: int| 0 <= k < l ==> less(f, #[trigger] s[k], p)
    &&& forall|k: int| r <= k < s.len() ==> not_less(f, #[trigger] s[k], p)
}

/// Compares the `block` elements from `l` on with the pivot and records, in
/// increasing order, the offsets of those that do not go before it.
fn trace_left<T, F: Fn(&T, &T) -> bool>(
    v: &[T],
    l: usize,
    block: usize,
    pivot: &T,
    is_less: &F,
    offsets: &mut [u8; BLOCK],
) -> (end: usize)
    requires
        callable::<T, F>(*is_less),
        block <= BLOCK,
        l + block <= v@.len(),
    ensures
        end <= block,
        left_block_ok(*is_less, v@, *pivot, l as int, block as int, final(offsets)@, 0, end as int),
{
    let n = v.len();
    let mut end: usize = 0;
    let mut i: usize = 0;
    while i < block
        invariant
            n == v@.len(),
            callable::<T, F>(*is_less),
            block <= BLOCK,
            l + block <= v@.len(),
            end <= i <= block,
            increasing(offsets@, 0, end as int),
            forall|j: int|
                0 <= j < end ==> (#[trigger] offsets@[j] as int) < i && not_less(
                    *is_less,
                    v@[l + offsets@[j]],
                    *pivot,
                ),
            forall|k: int|
                l <= k < l + i ==> less(*is_less, #[trigger] v@[k], *pivot) || is_offset(
                    offsets@,
                    0,
                    end as int,
                    k - l,
                ),
        decreases block - i,
    {
        let ghost old_offs = offsets@;
        offsets[end] = i as u8;
        let lt = is_less(&v[l + i], pivot);
        proof {
            assert forall|k: int|
                l <= k < l + i implies less(*is_less, #[trigger] v@[k], *pivot) || is_offset(
                    offsets@,
                    0,
                    (end + (!lt) as usize) as int,
                    k - l,
                ) by {
                if !less(*is_less, v@[k], *pivot) {
                    let w = choose|w: int| 0 <= w < end && old_offs[w] as int == k - l;
                    assert(offsets@[w] == old_offs[w]);
                }
            }
            if !lt {
                assert(offsets@[end as int] as int == (l + i) - l);
            }
        }
        end = end + (!lt) as usize;
        i += 1;
    }
    end
}

/// Compares the `block` elements before `r` with the pivot and records, in
/// increasing order, the distances from `r - 1` of those that go before it.
fn trace_right<T, F: Fn(&T, &T) -> bool>(
    v: &[T],
    r: usize,
    block: usize,
    pivot: &T,
    is_less: &F,
    offsets: &mut [u8; BLOCK],
) -> (end: usize)
    requires
        callable::<T, F>(*is_less),
        block <= BLOCK,
        block <= r <= v@.len(),
    ensures
        end <= block,
        right_block_ok(*is_less, v@, *pivot, r as int, block as int, final(offsets)@, 0, end as int),
{
    let n = v.len();
    let mut end: usize = 0;
    let mut i: usize = 0;
    while i < block
        invariant
            n == v@.len(),
            callable::<T, F>(*is_less),
            block <= BLOCK,
            block <= r <= v@.len(),
            end <= i <= block,
            increasing(offsets@, 0, end as int),
            forall|j: int|
                0 <= j < end ==> (#[trigger] offsets@[j] as int) < i && less(
                    *is_less,
                    v@[r - 1 - offsets@[j]],
                    *pivot,
                ),
            forall|k: int|
                r - i <= k < r ==> not_less(*is_less, #[trigger] v@[k], *pivot) || is_offset(
                    offsets@,
                    0,
                    end as int,
                    r - 1 - k,
                ),
        decreases block - i,
    {
        let ghost old_offs = offsets@;
        offsets[end] = i as u8;
        let lt = is_less(&v[r - 1 - i], pivot);
        proof {
            assert forall|k: int|
                r - i <= k < r implies not_less(*is_less, #[trigger] v@[k], *pivot) || is_offset(
                    offsets@,
                    0,
                    (end + lt as usize) as int,
                    r - 1 - k,
                ) by {
                if !not_less(*is_less, v@[k], *pivot) {
                    let w = choose|w: int| 0 <= w < end && old_offs[w] as int == r - 1 - k;
                    assert(offsets@[w] == old_offs[w]);
                }
            }
            if lt {
                assert(offsets@[end as int] as int == r - 1 - (r - 1 - i));
            }
        }
        end = end + lt as usize;
        i += 1;
    }
    end
}

/// Moves the first `count` pending elements of the left block to the right
/// block and the first `count` pending elements of the right block to the
/// left block, by one cyclic permutation of those positions.
#[verifier::loop_isolation(false)]
fn exchange<T, F: Fn(&T, &T) -> bool>(
    v: &mut [T],
    l: usize,
    block_l: usize,
    offsets_l: &[u8; BLOCK],
    start_l: usize,
    end_l: usize,
    r: usize,
    block_r: usize,
    offsets_r: &[u8; BLOCK],
    start_r: usize,
    end_r: usize,
    count: usize,
    pivot: &T,
    is_less: &F,
)
    requires
        0 < count,
        start_l + count <= end_l,
        start_r + count <= end_r,
        l + block_l <= r - block_r,
        left_block_ok(*is_less, old(v)@, *pivot, l as int, block_l as int, offsets_l@, start_l as int, end_l as int),
        right_block_ok(*is_less, old(v)@, *pivot, r as int, block_r as int, offsets_r@, start_r as int, end_r as int),
    ensures
        final(v)@.len() == old(v)@.len(),
        permutation(old(v)@, final(v)@),
        forall|k: int|
            0 <= k < old(v)@.len() && !(l <= k < l + block_l) && !(r - block_r <= k < r)
                ==> #[trigger] final(v)@[k] == old(v)@[k],
        left_block_ok(*is_less, final(v)@, *pivot, l as int, block_l as int, offsets_l@, (start_l + count) as int, end_l as int),
        right_block_ok(*is_less, final(v)@, *pivot, r as int, block_r as int, offsets_r@, (start_r + count) as int, end_r as int),
{
    let ghost f = *is_less;
    let ghost p = *pivot;
    let ghost ol = offsets_l@;
    let ghost or = offsets_r@;
    let ghost s_in = v@;
    let mut sl = start_l;
    let mut sr = start_r;
    let mut left_i = l + offsets_l[sl] as usize;
    let mut right_i = r - 1 - offsets_r[sr] as usize;
    proof {
        assert(ol[sl as int] < block_l);
        assert(or[sr as int] < block_r);
    }
    swap(v, left_i, right_i);
    proof {
        let s = v@;
        assert forall|k: int| l <= k < l + block_l implies less(f, #[trigger] s[k], p) || is_offset(
            ol,
            sl + 1,
            end_l as int,
            k - l,
        ) by {
            if k != left_i && !less(f, s[k], p) {
                assert(s[k] == s_in[k]);
                let w = choose|w: int| start_l <= w < end_l && ol[w] as int == k - l;
                assert(w != sl);
            }
        }
        assert forall|k: int| r - block_r <= k < r implies not_less(f, #[trigger] s[k], p) || is_offset(
            or,
            sr + 1,
            end_r as int,
            r - 1 - k,
        ) by {
            if k != right_i && !not_less(f, s[k], p) {
                assert(s[k] == s_in[k]);
                let w = choose|w: int| start_r <= w < end_r && or[w] as int == r - 1 - k;
                assert(w != sr);
            }
        }
        assert forall|i: int| sl + 1 <= i < end_l implies (#[trigger] ol[i] as int) < block_l
            && not_less(f, s[l + ol[i]], p) by {
            assert(ol[sl as int] < ol[i]);
            assert(s[l + ol[i]] == s_in[l + ol[i]]);
        }
        assert forall|i: int| sr + 1 <= i < end_r implies (#[trigger] or[i] as int) < block_r
            && less(f, s[r - 1 - or[i]], p) by {
            assert(or[sr as int] < or[i]);
            assert(s[r - 1 - or[i]] == s_in[r - 1 - or[i]]);
        }
    }
    let mut oi: usize = 1;
    while oi < count
        invariant
            1 <= oi <= count,
            sl == start_l + oi - 1,
            sr == start_r + oi - 1,
            left_i == l + ol[sl as int],
            right_i == r - 1 - or[sr as int],
            v@.len() == s_in.len(),
            permutation(s_in, v@),
            forall|k: int|
                0 <= k < s_in.len() && !(l <= k < l + block_l) && !(r - block_r <= k < r)
                    ==> #[trigger] v@[k] == s_in[k],
            left_block_ok(f, v@, p, l as int, block_l as int, ol, sl + 1, end_l as int),
            right_block_ok(f, v@, p, r as int, block_r as int, or, sr + 1, end_r as int),
            not_less(f, v@[right_i as int], p),
        decreases count - oi,
    {
        let ghost s0 = v@;
        sl += 1;
        let nl = l + offsets_l[sl] as usize;
        swap(v, right_i, nl);
        sr += 1;
        let nr = r - 1 - offsets_r[sr] as usize;
        proof {
            assert(ol[sl as int] < block_l);
            assert(or[sr as int] < block_r);
            assert(or[sr - 1] < or[sr as int]);
        }
        swap(v, nl, nr);
        proof {
            let s = v@;
            assert(s[right_i as int] == s0[nl as int]);
            assert(s[nl as int] == s0[nr as int]);
            assert(s[nr as int] == s0[right_i as int]);
            assert forall|k: int| l <= k < l + block_l implies less(f, #[trigger] s[k], p) || is_offset(
                ol,
                sl + 1,
                end_l as int,
                k - l,
            ) by {
                if k != nl && !less(f, s[k], p) {
                    assert(s[k] == s0[k]);
                    assert(!less(f, s0[k], p));
                    let w = choose|w: int| sl <= w < end_l && ol[w] as int == k - l;
                    assert(w != sl);
                }
            }
            assert forall|k: int| r - block_r <= k < r implies not_less(f, #[trigger] s[k], p) || is_offset(
                or,
                sr + 1,
                end_r as int,
                r - 1 - k,
            ) by {
                if k != right_i && k != nr && !not_less(f, s[k], p) {
                    assert(s[k] == s0[k]);
                    let w = choose|w: int| sr <= w < end_r && or[w] as int == r - 1 - k;
                    assert(w != sr);
                }
            }
            assert forall|i: int| sl + 1 <= i < end_l implies (#[trigger] ol[i] as int) < block_l
                && not_less(f, s[l + ol[i]], p) by {
                assert(ol[sl as int] < ol[i]);
                assert(s[l + ol[i]] == s0[l + ol[i]]);
            }
            assert forall|i: int| sr + 1 <= i < end_r implies (#[trigger] or[i] as int) < block_r
                && less(f, s[r - 1 - or[i]], p) by {
                assert(or[sr as int] < or[i]);
                assert(s[r - 1 - or[i]] == s0[r - 1 - or[i]]);
            }
            assert forall|k: int|
                0 <= k < s_in.len() && !(l <= k < l + block_l) && !(r - block_r <= k < r)
                    implies #[trigger] s[k] == s_in[k] by {
                assert(s[k] == s0[k]);
            }
        }
        left_i = nl;
        right_i = nr;
        oi += 1;
    }
    proof {
        let s = v@;
        assert forall|k: int| l <= k < l + block_l implies less(f, #[trigger] s[k], p) || is_offset(
            ol,
            start_l + count,
            end_l as int,
            k - l,
        ) by {
            if !less(f, s[k], p) {
                let w = choose|w: int| sl + 1 <= w < end_l && ol[w] as int == k - l;
            }
        }
        assert forall|k: int| r - block_r <= k < r implies not_less(f, #[trigger] s[k], p) || is_offset(
            or,
            start_r + count,
            end_r as int,
            r - 1 - k,
        ) by {
            if !not_less(f, s[k], p) {
                let w = choose|w: int| sr + 1 <= w < end_r && or[w] as int == r - 1 - k;
            }
        }
    }
}

/// Partitions `v` into the elements that go before `pivot`, followed by those
/// that do not, block by block; returns the number of the former.
fn partition_in_blocks<T, F: Fn(&T, &T) -> bool>(v: &mut [T], pivot: &T, is_less: &F) -> (mid: usize)
    requires
        callable::<T, F>(*is_less),
    ensures
        mid <= final(v)@.len(),
        permutation(old(v)@, final(v)@),
        forall|k: int| 0 <= k < mid ==> less(*is_less, #[trigger] final(v)@[k], *pivot),
        forall|k: int| mid <= k < final(v)@.len() ==> not_less(*is_less, #[trigger] final(v)@[k], *pivot),
{
    let ghost f = *is_less;
    let ghost p = *pivot;
    let len = v.len();

    // The current block on the left side, from `l` to `l + block_l`.
    let mut l = FakeUsizePtr::null_mut();
    let mut block_l: usize = BLOCK;
    let mut start_l: usize = 0;
    let mut end_l: usize = 0;
    let mut offsets_l = [0u8; BLOCK];

    // The current block on the right side, from `r - block_r` to `r`.
    let mut r = l.add(len);
    let mut block_r: usize = BLOCK;
    let mut start_r: usize = 0;
    let mut end_r: usize = 0;
    let mut offsets_r = [0u8; BLOCK];

    loop
        invariant_except_break
            block_l == BLOCK,
            block_r == BLOCK,
        invariant
            f == *is_less,
            p == *pivot,
            callable::<T, F>(*is_less),
            v@.len() == len,
            permutation(old(v)@, v@),
            outer_ok(f, v@, p, l@ as int, r@ as int),
            !(start_l < end_l && start_r < end_r),
            start_l <= end_l <= BLOCK,
            start_r <= end_r <= BLOCK,
            start_l < end_l ==> l@ + block_l <= r@ && left_block_ok(
                f,
                v@,
                p,
                l@ as int,
                block_l as int,
                offsets_l@,
                start_l as int,
                end_l as int,
            ),
            start_r < end_r ==> l@ + block_r <= r@ && right_block_ok(
                f,
                v@,
                p,
                r@ as int,
                block_r as int,
                offsets_r@,
                start_r as int,
                end_r as int,
            ),
        ensures
            start_l < end_l ==> l@ + block_l == r@,
            start_r < end_r ==> l@ + block_r == r@,
            start_l == end_l && start_r == end_r ==> l@ == r@,
        decreases r@ - l@,
    {
        // When `l` and `r` get close, cover what is left between them
        // exactly, and stop after this round.
        let width = r.addr() - l.addr();
        let is_done = width <= 2 * BLOCK;

        if is_done {
            // Number of elements not yet compared with the pivot.
            let mut rem = width;
            if start_l < end_l || start_r < end_r {
                rem -= BLOCK;
            }
            if start_l < end_l {
                block_r = rem;
            } else if start_r < end_r {
                block_l = rem;
            } else {
                block_l = rem / 2;
                block_r = rem - block_l;
            }
        }
        assert(l@ + block_l + block_r <= r@);
        assert(is_done ==> l@ + block_l + block_r == r@);

        if start_l == end_l {
            start_l = 0;
            end_l = trace_left(v, l.addr(), block_l, pivot, is_less, &mut offsets_l);
        }
        if start_r == end_r {
            start_r = 0;
            end_r = trace_right(v, r.addr(), block_r, pivot, is_less, &mut offsets_r);
        }

        // Number of out-of-order elements to swap between the two sides.
        let count = if end_l - start_l < end_r - start_r {
            end_l - start_l
        } else {
            end_r - start_r
        };
        if count > 0 {
            let ghost s0 = v@;
            exchange(
                v,
                l.addr(),
                block_l,
                &offsets_l,
                start_l,
                end_l,
                r.addr(),
                block_r,
                &offsets_r,
                start_r,
                end_r,
                count,
                pivot,
                is_less,
            );
            proof {
                assert forall|k: int| 0 <= k < l@ implies less(f, #[trigger] v@[k], p) by {
                    assert(v@[k] == s0[k]);
                }
                assert forall|k: int| r@ <= k < len implies not_less(f, #[trigger] v@[k], p) by {
                    assert(v@[k] == s0[k]);
                }
            }
            start_l = start_l + count;
            start_r = start_r + count;
        }

        if start_l == end_l {
            // Every element of the left block goes before the pivot.
            proof {
                assert forall|k: int| 0 <= k < l@ + block_l implies less(f, #[trigger] v@[k], p) by {
                    if k >= l@ {
                        assert(!is_offset(offsets_l@, start_l as int, end_l as int, k - l@));
                    }
                }
            }
            l = l.add(block_l);
        }
        if start_r == end_r {
            // No element of the right block goes before the pivot.
            proof {
                assert forall|k: int| r@ - block_r <= k < len implies not_less(f, #[trigger] v@[k], p) by {
                    if k < r@ {
                        assert(!is_offset(offsets_r@, start_r as int, end_r as int, r@ - 1 - k));
                    }
                }
            }
            r = r.sub(block_r);
        }

        if is_done {
            break;
        }
    }

    // At most one block has out-of-order elements left; move them to the
    // far end of the gap.
    if start_l < end_l {
        while start_l < end_l
            invariant
                f == *is_less,
                p == *pivot,
                v@.len() == len,
                permutation(old(v)@, v@),
                outer_ok(f, v@, p, l@ as int, r@ as int),
                start_l <= end_l <= BLOCK,
                left_block_ok(
                    f,
                    v@,
                    p,
                    l@ as int,
                    (r@ - l@) as int,
                    offsets_l@,
                    start_l as int,
                    end_l as int,
                ),
            decreases end_l - start_l,
        {
            let ghost s0 = v@;
            let ghost offs = offsets_l@;
            end_l = end_l - 1;
            let a = l.addr() + offsets_l[end_l] as usize;
            let b = r.addr() - 1;
            proof {
                assert(offs[end_l as int] < r@ - l@);
            }
            swap(v, a, b);
            proof {
                let s = v@;
                assert forall|k: int| l@ <= k < r@ - 1 implies less(f, #[trigger] s[k], p) || is_offset(
                    offs,
                    start_l as int,
                    end_l as int,
                    k - l@,
                ) by {
                    if k == a {
                        if !less(f, s0[b as int], p) {
                            let w = choose|w: int| start_l <= w <= end_l && offs[w] as int == b - l@;
                            if w < end_l {
                                assert(offs[w] < offs[end_l as int]);
                            }
                        }
                    } else if !less(f, s[k], p) {
                        assert(s[k] == s0[k]);
                        let w = choose|w: int| start_l <= w <= end_l && offs[w] as int == k - l@;
                        assert(w != end_l);
                    }
                }
                assert forall|i: int| start_l <= i < end_l implies (#[trigger] offs[i] as int) < r@ - 1 - l@
                    && not_less(f, s[l@ + offs[i]], p) by {
                    assert(offs[i] < offs[end_l as int]);
                    assert(s[l@ + offs[i]] == s0[l@ + offs[i]]);
                }
                assert forall|k: int| r@ - 1 <= k < len implies not_less(f, #[trigger] s[k], p) by {
                    if k > b {
                        assert(s[k] == s0[k]);
                    }
                }
                assert forall|k: int| 0 <= k < l@ implies less(f, #[trigger] s[k], p) by {
                    assert(s[k] == s0[k]);
                }
            }
            r = r.sub(1);
        }
        r.addr()
    } else if start_r < end_r {
        while start_r < end_r
            invariant
                f == *is_less,
                p == *pivot,
                v@.len() == len,
                permutation(old(v)@, v@),
                outer_ok(f, v@, p, l@ as int, r@ as int),
                start_r <= end_r <= BLOCK,
                right_block_ok(
                    f,
                    v@,
                    p,
                    r@ as int,
                    (r@ - l@) as int,
                    offsets_r@,
                    start_r as int,
                    end_r as int,
                ),
            decreases end_r - start_r,
        {
            let ghost s0 = v@;
            let ghost offs = offsets_r@;
            end_r = end_r - 1;
            proof {
                assert(offs[end_r as int] < r@ - l@);
            }
            let a = l.addr();
            let b = r.addr() - 1 - offsets_r[end_r] as usize;
            swap(v, a, b);
            proof {
                let s = v@;
                assert forall|k: int| l@ + 1 <= k < r@ implies not_less(f, #[trigger] s[k], p) || is_offset(
                    offs,
                    start_r as int,
                    end_r as int,
                    r@ - 1 - k,
                ) by {
                    if k == b {
                        if !not_less(f, s0[a as int], p) {
                            let w = choose|w: int| start_r <= w <= end_r && offs[w] as int == r@ - 1 - a;
                            if w < end_r {
                                assert(offs[w] < offs[end_r as int]);
                            }
                        }
                    } else if !not_less(f, s[k], p) {
                        assert(s[k] == s0[k]);
                        let w = choose|w: int| start_r <= w <= end_r && offs[w] as int == r@ - 1 - k;
                        assert(w != end_r);
                    }
                }
                assert forall|i: int| start_r <= i < end_r implies (#[trigger] offs[i] as int) < r@ - (l@ + 1)
                    && less(f, s[r@ - 1 - offs[i]], p) by {
                    assert(offs[i] < offs[end_r as int]);
                    assert(s[r@ - 1 - offs[i]] == s0[r@ - 1 - offs[i]]);
                }
                assert forall|k: int| 0 <= k < l@ + 1 implies less(f, #[trigger] s[k], p) by {
                    if k < a {
                        assert(s[k] == s0[k]);
                    }
                }
                assert forall|k: int| r@ <= k < len implies not_less(f, #[trigger] s[k], p) by {
                    assert(s[k] == s0[k]);
                }
            }
            l = l.add(1);
        }
        l.addr()
    } else {
        l.addr()
    }
}

/// The elements of `t` before `k` were found to go before `p`, and those
/// from `k` on not to.
pub open spec fn split_at<T, F: Fn(&T, &T) -> bool>(f: F, t: Seq<T>, p: T, k: int) -> bool {
    &&& 0 <= k <= t.len()
    &&& forall|i: int| 0 <= i < k ==> less(f, #[trigger] t[i], p)
    &&& forall|i: int| k <= i < t.len() ==> not_less(f, #[trigger] t[i], p)
}

/// `t` holds elements found to go before `p`, then elements found not to.
pub open spec fn already_split<T, F: Fn(&T, &T) -> bool>(f: F, t: Seq<T>, p: T) -> bool {
    exists|k: int| #[trigger] split_at(f, t, p, k)
}

/// Partitions `v` into elements that go before `v[pivot]`, then that element,
/// then elements that do not go before it. Returns the position the element
/// `v[pivot]` ends at, and whether `v` was partitioned already.
pub fn partition<T, F: Fn(&T, &T) -> bool>(v: &mut [T], pivot: usize, is_less: &F) -> (res: (
    usize,
    bool,
))
    requires
        callable::<T, F>(*is_less),
        pivot < old(v)@.len(),
    ensures
        res.0 < final(v)@.len(),
        permutation(old(v)@, final(v)@),
        final(v)@[res.0 as int] == old(v)@[pivot as int],
        forall|k: int|
            0 <= k < res.0 ==> less(*is_less, #[trigger] final(v)@[k], final(v)@[res.0 as int]),
        forall|k: int|
            res.0 < k < final(v)@.len() ==> not_less(
                *is_less,
                #[trigger] final(v)@[k],
                final(v)@[res.0 as int],
            ),
        res.1 ==> final(v)@ == swapped(swapped(old(v)@, 0, pivot as int), 0, res.0 as int),
        res.1 ==> already_split(
            *is_less,
            swapped(old(v)@, 0, pivot as int).subrange(1, old(v)@.len() as int),
            old(v)@[pivot as int],
        ),
        forall|lt: spec_fn(T, T) -> bool|
            #[trigger] answers_by(*is_less, lt) && already_split(
                *is_less,
                swapped(old(v)@, 0, pivot as int).subrange(1, old(v)@.len() as int),
                old(v)@[pivot as int],
            ) ==> res.1,
{
    let ghost f = *is_less;
    let len = v.len();
    // Place the pivot at the beginning of slice.
    swap(v, 0, pivot);
    let ghost s1 = v@;
    let ghost pv = s1[0];
    let ghost mut h_end_out: Seq<T> = Seq::empty();
    let ghost mut t_end_out: Seq<T> = Seq::empty();
    let (mid, was_partitioned) = {
        let (head, tail) = v.split_at_mut(1);
        let pivot = &head[0];
        let ghost t0 = tail@;
        assert(*pivot == pv);

        // Find the first pair of out-of-order elements.
        let mut l: usize = 0;
        let mut r = tail.len();
        loop
            invariant
                callable::<T, F>(*is_less),
                f == *is_less,
                *pivot == pv,
                tail@ == t0,
                l <= r == t0.len(),
                forall|k: int| 0 <= k < l ==> less(f, #[trigger] t0[k], pv),
            ensures
                l >= r || not_less(f, t0[l as int], pv),
            decreases r - l,
        {
            if l >= r || !is_less(&tail[l], pivot) {
                break;
            }
            l += 1;
        }
        loop
            invariant
                callable::<T, F>(*is_less),
                f == *is_less,
                *pivot == pv,
                tail@ == t0,
                l <= r <= t0.len(),
                l < r ==> not_less(f, t0[l as int], pv),
                forall|k: int| 0 <= k < l ==> less(f, #[trigger] t0[k], pv),
                forall|k: int| r <= k < t0.len() ==> not_less(f, #[trigger] t0[k], pv),
            ensures
                l >= r || less(f, t0[r - 1], pv),
            decreases r - l,
        {
            if l >= r || is_less(&tail[r - 1], pivot) {
                break;
            }
            r -= 1;
        }
        proof {
            if l >= r {
                assert(split_at(f, t0, pv, l as int));
            }
            assert forall|lt: spec_fn(T, T) -> bool| #[trigger] answers_by(f, lt) && already_split(
                f,
                t0,
                pv,
            ) implies l >= r by {
                if l < r {
                    let k = choose|k: int| #[trigger] split_at(f, t0, pv, k);
                    if l < k {
                        assert(less(f, t0[l as int], pv));
                    } else {
                        assert(not_less(f, t0[r - 1], pv));
                    }
                }
            }
        }
        let (front, back) = tail.split_at_mut(r);
        let (done, gap) = front.split_at_mut(l);
        let ghost g0 = gap@;
        let m = partition_in_blocks(gap, pivot, is_less);
        proof {
            let t1 = done@ + gap@ + back@;
            assert(t0 == s1.subrange(1, len as int));
            assert(done@ == t0.subrange(0, l as int));
            assert(back@ == t0.subrange(r as int, t0.len() as int));
            assert(t0 =~= done@ + g0 + back@);
            crate::model::lemma_permutation_len(g0, gap@);
            crate::model::lemma_permutation_middle(done@, g0, gap@, back@);
            assert forall|k: int| 0 <= k < l + m implies less(f, #[trigger] t1[k], pv) by {
                if k < l {
                    assert(t1[k] == done@[k]);
                } else {
                    assert(t1[k] == gap@[k - l]);
                }
            }
            assert forall|k: int| l + m <= k < t1.len() implies not_less(f, #[trigger] t1[k], pv) by {
                if k < r {
                    assert(t1[k] == gap@[k - l]);
                } else {
                    assert(t1[k] == back@[k - r]);
                }
            }
        }
        let ghost h_end = head@;
        let ghost t_end = done@ + gap@ + back@;
        proof {
            t_end_out = t_end;
            h_end_out = h_end;
            if l >= r {
                assert(g0.len() == 0);
                assert(gap@ =~= g0);
                assert(t_end =~= t0);
            }
        }
        (l + m, l >= r)
    };
    let ghost s2 = v@;
    proof {
        assert(s2 == h_end_out + t_end_out);
        assert(s2.subrange(1, len as int) =~= t_end_out);
        assert(s2[0] == pv);
        assert(s1 =~= seq![pv] + s1.subrange(1, len as int));
        assert(s2 =~= seq![pv] + s2.subrange(1, len as int));
        crate::model::lemma_permutation_concat(seq![pv], seq![pv], s1.subrange(1, len as int), s2.subrange(1, len as int));
        assert forall|k: int| 1 <= k <= mid implies less(f, #[trigger] s2[k], pv) by {
            assert(s2[k] == s2.subrange(1, len as int)[k - 1]);
        }
    }

    proof {
        if was_partitioned {
            assert(s2 =~= s1);
        }
    }
    // Place the pivot between the two partitions.
    swap(v, 0, mid);
    proof {
        let s = v@;
        assert forall|k: int| 0 <= k < mid implies less(f, #[trigger] s[k], s[mid as int]) by {
            if k == 0 {
                assert(s[k] == s2[mid as int]);
            } else {
                assert(s[k] == s2[k]);
            }
        }
        assert forall|k: int| mid < k < len implies not_less(f, #[trigger] s[k], s[mid as int]) by {
            assert(s[k] == s2[k]);
            assert(s2[k] == s2.subrange(1, len as int)[k - 1]);
        }
    }
    (mid, was_partitioned)
}

/// Partitions `v` into elements equal to `v[pivot]`, that element first,
/// followed by elements it goes before. Returns the number of the former,
/// the pivot included. Meant for slices where no element goes before the
/// pivot.
pub fn partition_equal<T, F: Fn(&T, &T) -> bool>(v: &mut [T], pivot: usize, is_less: &F) -> (mid: usize)
    requires
        callable::<T, F>(*is_less),
        pivot < old(v)@.len(),
    ensures
        1 <= mid <= final(v)@.len(),
        permutation(old(v)@, final(v)@),
        final(v)@[0] == old(v)@[pivot as int],
        forall|k: int| 1 <= k < mid ==> not_less(*is_less, final(v)@[0], #[trigger] final(v)@[k]),
        forall|k: int| mid <= k < final(v)@.len() ==> less(*is_less, final(v)@[0], #[trigger] final(v)@[k]),
{
    let ghost f = *is_less;
    let len = v.len();
    // Place the pivot at the beginning of slice.
    swap(v, 0, pivot);
    let ghost s1 = v@;
    let ghost pv = s1[0];
    let ghost mut h_end_out: Seq<T> = Seq::empty();
    let ghost mut t_end_out: Seq<T> = Seq::empty();
    let l = {
        let (head, tail) = v.split_at_mut(1);
        let pivot = &head[0];
        let ghost t0 = tail@;
        assert(*pivot == pv);
        assert(t0 == s1.subrange(1, len as int));

        let mut l: usize = 0;
        let mut r = tail.len();
        loop
            invariant
                callable::<T, F>(*is_less),
                f == *is_less,
                *pivot == pv,
                tail@.len() == t0.len(),
                permutation(t0, tail@),
                l <= r + 1,
                r <= t0.len(),
                l <= t0.len(),
                forall|k: int| 0 <= k < l ==> not_less(f, pv, #[trigger] tail@[k]),
                forall|k: int| r <= k < t0.len() ==> less(f, pv, #[trigger] tail@[k]),
            ensures
                r <= l,
            decreases r + 1 - l,
        {
            let ghost l0 = l;
            let ghost r0 = r;
            // Find the first element greater than the pivot.
            loop
                invariant
                    l0 <= l,
                    r == r0,
                    callable::<T, F>(*is_less),
                    f == *is_less,
                    *pivot == pv,
                    tail@.len() == t0.len(),
                    permutation(t0, tail@),
                    l <= r + 1,
                    r <= t0.len(),
                    l <= t0.len(),
                    forall|k: int| 0 <= k < l ==> not_less(f, pv, #[trigger] tail@[k]),
                    forall|k: int| r <= k < t0.len() ==> less(f, pv, #[trigger] tail@[k]),
                ensures
                    l < r ==> less(f, pv, tail@[l as int]),
                decreases t0.len() - l,
            {
                if l < r && !is_less(pivot, &tail[l]) {
                    l += 1;
                } else {
                    break;
                }
            }
            // Find the last element equal to the pivot.
            loop
                invariant
                    l0 <= l,
                    r <= r0,
                    callable::<T, F>(*is_less),
                    f == *is_less,
                    *pivot == pv,
                    tail@.len() == t0.len(),
                    permutation(t0, tail@),
                    l <= r + 1,
                    r <= t0.len(),
                    l <= t0.len(),
                    forall|k: int| 0 <= k < l ==> not_less(f, pv, #[trigger] tail@[k]),
                    forall|k: int| r <= k < t0.len() ==> less(f, pv, #[trigger] tail@[k]),
                    l < r ==> less(f, pv, tail@[l as int]),
                ensures
                    l < r ==> not_less(f, pv, tail@[r - 1]),
                decreases r,
            {
                if l < r && is_less(pivot, &tail[r - 1]) {
                    r -= 1;
                } else {
                    break;
                }
            }
            // Are we done?
            if l >= r {
                break;
            }
            // Swap the found pair of out-of-order elements.
            r -= 1;
            let ghost t1 = tail@;
            swap(tail, l, r);
            proof {
                let t = tail@;
                assert(not_less(f, pv, t1[r as int]));
                assert forall|k: int| 0 <= k < l + 1 implies not_less(f, pv, #[trigger] t[k]) by {
                    if k < l {
                        assert(t[k] == t1[k]);
                    }
                }
                assert forall|k: int| r <= k < t0.len() implies less(f, pv, #[trigger] t[k]) by {
                    if k > r {
                        assert(t[k] == t1[k]);
                    }
                }
            }
            l += 1;
        }
        proof {
            t_end_out = tail@;
            h_end_out = head@;
            assert(permutation(t0, t_end_out));
            assert(r <= l);
        }
        l
    };
    let ghost s2 = v@;
    proof {
        assert(s2 == h_end_out + t_end_out);
        assert(s2.subrange(1, len as int) =~= t_end_out);
        assert(s1 =~= seq![pv] + s1.subrange(1, len as int));
        assert(s2 =~= seq![pv] + s2.subrange(1, len as int));
        crate::model::lemma_permutation_concat(seq![pv], seq![pv], s1.subrange(1, len as int), s2.subrange(1, len as int));
        assert forall|k: int| 1 <= k < l + 1 implies not_less(f, pv, #[trigger] s2[k]) by {
            assert(s2[k] == s2.subrange(1, len as int)[k - 1]);
        }
        assert forall|k: int| l + 1 <= k < len implies less(f, pv, #[trigger] s2[k]) by {
            assert(s2[k] == s2.subrange(1, len as int)[k - 1]);
        }
    }
    // We found `l` elements equal to the pivot. Add 1 to account for the
    // pivot itself.
    l + 1
}

} // verus!
