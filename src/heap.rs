//! Heapsort: the fallback that bounds the worst case.
use vstd::prelude::*;
use crate::model::{
    all_le, answers_by, callable, lemma_all_le_permutation, lemma_asym, lemma_permutation_concat,
    lemma_permutation_len, less, not_less, permutation, sorted_by, strict_weak_order, swap, swapped,
};

verus! {

/// Position of the parent of node `c` in a binary heap.
pub open spec fn parent(c: int) -> int {
    (c - 1) / 2
}

/// Every node in `[1, end)` whose parent is at `start` or later does not go
/// after its parent.
pub open spec fn heap_from<T>(lt: spec_fn(T, T) -> bool, s: Seq<T>, start: int, end: int) -> bool {
    forall|c: int|
        1 <= c < end && start <= parent(c) ==> !lt(s[parent(c)], #[trigger] s[c])
}

/// The root of a heap is not before any of its elements.
pub proof fn lemma_heap_root<T>(lt: spec_fn(T, T) -> bool, s: Seq<T>, end: int, k: int)
    requires
        strict_weak_order(lt),
        end <= s.len(),
        heap_from(lt, s, 0, end),
        0 <= k < end,
    ensures
        !lt(s[0], s[k]),
    decreases k,
{
    if k > 0 {
        lemma_heap_root(lt, s, end, parent(k));
        assert(!lt(s[parent(k)], s[k]));
    }
}

/// Position `c` lies in the subtree of the heap rooted at `node`.
pub open spec fn in_subtree(c: int, node: int) -> bool
    decreases c,
{
    if c <= node || c < 1 {
        c == node
    } else {
        in_subtree(parent(c), node)
    }
}

/// Every node of the subtree rooted at `node`, but `node` itself, does not
/// go after its parent: the subtrees of the children of `node` are heaps.
pub open spec fn heap_below_children<T>(lt: spec_fn(T, T) -> bool, s: Seq<T>, node: int, len: int) -> bool {
    forall|c: int|
        1 <= c < len && in_subtree(parent(c), node) && parent(c) != node ==> !lt(
            s[parent(c)],
            #[trigger] s[c],
        )
}

/// The subtree rooted at `node` is a heap: no node of it goes after its
/// parent.
pub open spec fn heap_in<T>(lt: spec_fn(T, T) -> bool, s: Seq<T>, node: int, len: int) -> bool {
    forall|c: int|
        1 <= c < len && in_subtree(parent(c), node) ==> !lt(s[parent(c)], #[trigger] s[c])
}

/// A position in the subtree of `node` is not before `node`.
pub proof fn lemma_subtree_ge(c: int, node: int)
    requires
        in_subtree(c, node),
    ensures
        c >= node,
    decreases c,
{
    if c > node && c >= 1 {
        lemma_subtree_ge(parent(c), node);
    }
}

/// Every position lies in the subtree of the root.
pub proof fn lemma_subtree_root(c: int)
    requires
        c >= 0,
    ensures
        in_subtree(c, 0),
    decreases c,
{
    if c >= 1 {
        lemma_subtree_root(parent(c));
    }
}

/// The heap order holds below `start`, but between `node` and its children,
/// and the parent of `node`, if below `start`, does not go before the
/// children of `node`.
pub open spec fn sift_inv<T>(lt: spec_fn(T, T) -> bool, s: Seq<T>, start: int, node: int, len: int) -> bool {
    &&& forall|c: int|
        1 <= c < len && in_subtree(parent(c), start) && parent(c) != node ==> !lt(s[parent(c)], #[trigger] s[c])
    &&& node > start ==> forall|c: int|
        1 <= c < len && parent(c) == node ==> !lt(s[parent(node)], #[trigger] s[c])
}

/// Moves `v[node]` down its subtree until no child goes after it. Makes the
/// subtree of `node` a heap when the subtrees of its children were heaps,
/// and leaves the elements outside the subtree of `node` as they are.
fn sift_down<T, F: Fn(&T, &T) -> bool>(v: &mut [T], node: usize, is_less: &F)
    requires
        callable::<T, F>(*is_less),
    ensures
        final(v)@.len() == old(v)@.len(),
        permutation(old(v)@, final(v)@),
        forall|lt: spec_fn(T, T) -> bool|
            #[trigger] answers_by(*is_less, lt) && heap_below_children(
                lt,
                old(v)@,
                node as int,
                old(v)@.len() as int,
            ) ==> heap_in(lt, final(v)@, node as int, old(v)@.len() as int),
        forall|k: int|
            0 <= k < old(v)@.len() && !in_subtree(k, node as int) ==> #[trigger] final(v)@[k] == old(
                v,
            )@[k],
{
    let ghost f = *is_less;
    let ghost start = node as int;
    let len = v.len();
    let mut node = node;
    loop
        invariant
            f == *is_less,
            callable::<T, F>(*is_less),
            v@.len() == len,
            permutation(old(v)@, v@),
            start <= node,
            node == start || parent(node as int) >= start,
            old(v)@.len() == len,
            in_subtree(node as int, start),
            forall|k: int| 0 <= k < len && !in_subtree(k, start) ==> #[trigger] v@[k] == old(v)@[k],
            forall|lt: spec_fn(T, T) -> bool|
                #[trigger] answers_by(f, lt) && heap_below_children(lt, old(v)@, start, len as int)
                    ==> sift_inv(lt, v@, start, node as int, len as int),
        ensures
            forall|lt: spec_fn(T, T) -> bool|
                #[trigger] answers_by(f, lt) && heap_below_children(lt, old(v)@, start, len as int)
                    ==> heap_in(lt, v@, start, len as int),
        decreases len - node,
    {
        // Stop if `node` has no children.
        if node >= len / 2 {
            proof {
                assert forall|lt: spec_fn(T, T) -> bool| #[trigger] answers_by(f, lt) && heap_below_children(lt, old(v)@, start, len as int) implies heap_in(
                    lt,
                    v@,
                    start,
                    len as int,
                ) by {
                    assert forall|c: int| 1 <= c < len && in_subtree(parent(c), start) implies !lt(v@[parent(c)],
                        #[trigger] v@[c],
                    ) by {
                        if parent(c) == node {
                            assert(2 * node + 1 <= c);
                        }
                    }
                }
            }
            break;
        }
        // Children of `node`.
        let mut child = 2 * node + 1;

        // Choose the greater child.
        if child + 1 < len {
            if is_less(&v[child], &v[child + 1]) {
                child += 1;
            } else {
                proof {
                    assert(not_less(f, v@[child as int], v@[child + 1]));
                }
            }
        }
        proof {
            // No child of `node` goes after the chosen one.
            assert forall|lt: spec_fn(T, T) -> bool| #[trigger] answers_by(f, lt) implies forall|c: int|
                1 <= c < len && parent(c) == node ==> !lt(v@[child as int], #[trigger] v@[c]) by {
                assert forall|c: int| 1 <= c < len && parent(c) == node implies !lt(v@[child as int],
                    #[trigger] v@[c],
                ) by {
                    if c != child {
                        if c == child - 1 {
                            assert(less(f, v@[c], v@[child as int]));
                        } else {
                            assert(not_less(f, v@[child as int], v@[c]));
                        }
                    }
                }
            }
        }

        // Stop if the heap order holds at `node`.
        if !is_less(&v[node], &v[child]) {
            proof {
                assert(not_less(f, v@[node as int], v@[child as int]));
                assert forall|lt: spec_fn(T, T) -> bool| #[trigger] answers_by(f, lt) && heap_below_children(lt, old(v)@, start, len as int) implies heap_in(
                    lt,
                    v@,
                    start,
                    len as int,
                ) by {
                    assert(!lt(v@[node as int], v@[child as int]));
                    assert forall|c: int| 1 <= c < len && in_subtree(parent(c), start) implies !lt(v@[parent(c)],
                        #[trigger] v@[c],
                    ) by {
                        if parent(c) == node && c != child {
                            assert(!lt(v@[child as int], v@[c]));
                        }
                    }
                }
            }
            break;
        }

        // Swap `node` with the greater child, move one step down, and
        // continue sifting.
        let ghost s1 = v@;
        swap(v, node, child);
        proof {
            assert forall|lt: spec_fn(T, T) -> bool| #[trigger] answers_by(f, lt) && heap_below_children(lt, old(v)@, start, len as int) implies sift_inv(
                lt,
                v@,
                start,
                child as int,
                len as int,
            ) by {
                let x = s1[node as int];
                let y = s1[child as int];
                assert(v@ == swapped(s1, node as int, child as int));
                assert(v@[child as int] == x);
                assert(v@[node as int] == y);
                assert(less(f, x, y));
                assert forall|c: int|
                    1 <= c < len && in_subtree(parent(c), start) && parent(c) != child implies !lt(v@[parent(c)],
                        #[trigger] v@[c],
                    ) by {
                    if parent(c) == node {
                        assert(v@[parent(c)] == y);
                        if c == child {
                            assert(v@[c] == x);
                            assert(!lt(y, x));
                        } else {
                            assert(v@[c] == s1[c]);
                            assert(!lt(y, s1[c]));
                        }
                    } else if c == node {
                        assert(node > start);
                        assert(parent(c) != child);
                        assert(v@[parent(c)] == s1[parent(c)]);
                        assert(!lt(s1[parent(node as int)], y));
                        assert(v@[c] == y);
                    } else if c == child {
                    } else {
                        assert(v@[c] == s1[c]);
                        assert(v@[parent(c)] == s1[parent(c)]);
                    }
                }
                assert forall|c: int| 1 <= c < len && parent(c) == child implies !lt(v@[node as int],
                    #[trigger] v@[c],
                ) by {
                    assert(v@[c] == s1[c]);
                    assert(!lt(s1[child as int], s1[c]));
                }
            }
        }
        proof {
            assert(in_subtree(child as int, start));
            assert forall|k: int| 0 <= k < len && !in_subtree(k, start) implies #[trigger] v@[k]
                == old(v)@[k] by {
                assert(v@[k] == s1[k]);
            }
        }
        node = child;
    }
}

/// Sorts `v` with heapsort, which is *O*(*n* log *n*) in the worst case.
/// `is_less(a, b)` tells whether `a` goes strictly before `b`. The result is
/// a permutation of `v` whatever `is_less` answers; it is sorted by every
/// strict weak order that all answers of `is_less` agree with.
pub fn const_heapsort<T, F: Fn(&T, &T) -> bool>(v: &mut [T], is_less: F)
    requires
        callable::<T, F>(is_less),
    ensures
        permutation(old(v)@, final(v)@),
        forall|lt: spec_fn(T, T) -> bool| #[trigger] answers_by(is_less, lt) ==> sorted_by(lt, final(v)@),
{
    heapsort(v, &is_less);
}

/// Sorts `v` with heapsort.
pub fn heapsort<T, F: Fn(&T, &T) -> bool>(v: &mut [T], is_less: &F)
    requires
        callable::<T, F>(*is_less),
    ensures
        permutation(old(v)@, final(v)@),
        forall|lt: spec_fn(T, T) -> bool| #[trigger] answers_by(*is_less, lt) ==> sorted_by(lt, final(v)@),
{
    let ghost f = *is_less;
    let len = v.len();
    if len < 2 {
        proof {
            assert forall|lt: spec_fn(T, T) -> bool| #[trigger] answers_by(f, lt) implies sorted_by(lt, v@) by {
                if len == 1 {
                    lemma_asym(lt, v@[0], v@[0]);
                }
            }
        }
        return;
    }

    // Build the heap in linear time.
    let mut i = len / 2;
    while i > 0
        invariant
            f == *is_less,
            callable::<T, F>(*is_less),
            v@.len() == len,
            i <= len / 2,
            permutation(old(v)@, v@),
            forall|lt: spec_fn(T, T) -> bool| #[trigger] answers_by(f, lt) ==> heap_from(lt, v@, i as int, len as int),
        decreases i,
    {
        i -= 1;
        let ghost s0 = v@;
        proof {
            assert forall|lt: spec_fn(T, T) -> bool| #[trigger] answers_by(f, lt) implies heap_below_children(
                lt,
                s0,
                i as int,
                len as int,
            ) by {
                assert forall|c: int|
                    1 <= c < len && in_subtree(parent(c), i as int) && parent(c) != i implies !lt(
                    s0[parent(c)],
                    #[trigger] s0[c],
                ) by {
                    lemma_subtree_ge(parent(c), i as int);
                }
            }
        }
        sift_down(v, i, is_less);
        proof {
            assert forall|lt: spec_fn(T, T) -> bool| #[trigger] answers_by(f, lt) implies heap_from(
                lt,
                v@,
                i as int,
                len as int,
            ) by {
                assert(heap_below_children(lt, s0, i as int, len as int));
                assert forall|c: int| 1 <= c < len && i <= parent(c) implies !lt(
                    v@[parent(c)],
                    #[trigger] v@[c],
                ) by {
                    if !in_subtree(parent(c), i as int) {
                        assert(!in_subtree(c, i as int));
                        assert(v@[c] == s0[c]);
                        assert(v@[parent(c)] == s0[parent(c)]);
                    }
                }
            }
        }
    }

    // Pop maximal elements from the heap.
    let ghost mut front_out: Seq<T> = Seq::empty();
    let ghost mut back_out: Seq<T> = Seq::empty();
    let mut end = len - 1;
    while end >= 1
        invariant
            f == *is_less,
            callable::<T, F>(*is_less),
            v@.len() == len,
            end < len,
            permutation(old(v)@, v@),
            forall|lt: spec_fn(T, T) -> bool|
                #[trigger] answers_by(f, lt) ==> heap_from(lt, v@, 0, end + 1) && sorted_by(
                    lt,
                    v@.subrange(end + 1, len as int),
                ) && all_le(lt, v@.subrange(0, end + 1), v@.subrange(end + 1, len as int)),
        decreases end,
    {
        let ghost s0 = v@;
        swap(v, 0, end);
        let ghost s1 = v@;
        let ghost mut fr0: Seq<T> = Seq::empty();
        {
            let (front, back) = v.split_at_mut(end);
            proof {
                fr0 = front@;
            }
            proof {
                assert forall|lt: spec_fn(T, T) -> bool| #[trigger] answers_by(f, lt) implies heap_below_children(
                    lt,
                    fr0,
                    0,
                    end as int,
                ) by {
                    assert forall|c: int|
                        1 <= c < end && in_subtree(parent(c), 0) && parent(c) != 0 implies !lt(
                        fr0[parent(c)],
                        #[trigger] fr0[c],
                    ) by {
                        assert(fr0[c] == s0[c]);
                        assert(fr0[parent(c)] == s0[parent(c)]);
                    }
                }
            }
            sift_down(front, 0, is_less);
            proof {
                lemma_permutation_concat(fr0, front@, back@, back@);
                assert(s1 =~= fr0 + back@);
                lemma_permutation_len(fr0, front@);
                front_out = front@;
                back_out = back@;
            }
        }
        proof {
            assert(v@ == front_out + back_out);
            assert(v@.subrange(0, end as int) =~= front_out);
            assert(v@.subrange(end as int, len as int) =~= back_out);
            assert forall|lt: spec_fn(T, T) -> bool| #[trigger] answers_by(f, lt) implies heap_from(
                lt,
                v@,
                0,
                end as int,
            ) && sorted_by(lt, v@.subrange(end as int, len as int)) && all_le(
                lt,
                v@.subrange(0, end as int),
                v@.subrange(end as int, len as int),
            ) by {
                assert forall|k: int| 0 <= k <= end implies !lt(s0[0], #[trigger] s0[k]) by {
                    lemma_heap_root(lt, s0, end + 1, k);
                }
                let tail = s1.subrange(end as int, len as int);
                assert forall|a: int, b: int| 0 <= a < b < tail.len() implies !lt(
                    #[trigger] tail[b],
                    #[trigger] tail[a],
                ) by {
                    if a == 0 {
                        assert(tail[a] == s0[0]);
                        assert(tail[b] == s0.subrange(end + 1, len as int)[b - 1]);
                        assert(!lt(s0.subrange(end + 1, len as int)[b - 1], s0.subrange(0, end + 1)[0]));
                    } else {
                        assert(tail[a] == s0.subrange(end + 1, len as int)[a - 1]);
                        assert(tail[b] == s0.subrange(end + 1, len as int)[b - 1]);
                    }
                }
                let head = s1.subrange(0, end as int);
                assert forall|a: int, b: int| 0 <= a < head.len() && 0 <= b < tail.len() implies !lt(
                    #[trigger] tail[b],
                    #[trigger] head[a],
                ) by {
                    let ha = if a == 0 {
                        end as int
                    } else {
                        a
                    };
                    assert(head[a] == s0[ha]);
                    if b == 0 {
                        assert(tail[b] == s0[0]);
                        assert(!lt(s0[0], s0[ha]));
                    } else {
                        assert(tail[b] == s0.subrange(end + 1, len as int)[b - 1]);
                        assert(s0[ha] == s0.subrange(0, end + 1)[ha]);
                    }
                }
                assert(fr0 =~= head);
                assert(back_out =~= tail);
                assert forall|c: int| 1 <= c < end && 1 <= parent(c) implies !lt(
                    fr0[parent(c)],
                    #[trigger] fr0[c],
                ) by {
                    assert(fr0[c] == s0[c]);
                    assert(fr0[parent(c)] == s0[parent(c)]);
                }
                assert forall|c: int| 1 <= c < end implies !lt(front_out[parent(c)], #[trigger] front_out[c]) by {
                    lemma_subtree_root(parent(c));
                }
                lemma_all_le_permutation(lt, fr0, front_out, back_out, back_out);
                assert forall|c: int| 1 <= c < end && 0 <= parent(c) implies !lt(
                    v@[parent(c)],
                    #[trigger] v@[c],
                ) by {
                    assert(v@[c] == front_out[c]);
                    assert(v@[parent(c)] == front_out[parent(c)]);
                }
            }
        }
        end -= 1;
    }
    proof {
        assert forall|lt: spec_fn(T, T) -> bool| #[trigger] answers_by(f, lt) implies sorted_by(lt, v@) by {
            let s = v@;
            assert forall|a: int, b: int| 0 <= a < b < len implies !lt(#[trigger] s[b], #[trigger] s[a]) by {
                assert(s[b] == s.subrange(1, len as int)[b - 1]);
                if a > 0 {
                    assert(s[a] == s.subrange(1, len as int)[a - 1]);
                } else {
                    assert(s[a] == s.subrange(0, 1)[0]);
                }
            }
        }
    }
}

} // verus!
