//! The orders that `Ord`, a comparator returning `Ordering`, and a key
//! function define, and the conditions under which they are strict weak
//! orders.
use vstd::prelude::*;
use core::cmp::Ordering;
use vstd::laws_cmp::{
    obeys_cmp, obeys_cmp_ord, obeys_cmp_partial_ord, obeys_partial_cmp_spec_properties,
};
use vstd::laws_eq::obeys_eq_spec_properties;
use vstd::std_specs::cmp::{OrdSpec, PartialEqSpec, PartialOrdIs, PartialOrdSpec};
use crate::model::strict_weak_order;

verus! {

/// The order of `<` on `T`.
pub open spec fn ord_less<T: PartialOrd>() -> spec_fn(T, T) -> bool {
    |a: T, b: T| a.is_lt(&b)
}

/// `a <= b` for `T`: they compare as less or equal.
pub open spec fn in_order<T: PartialOrd>(a: T, b: T) -> bool {
    a.is_le(&b)
}

/// The order of `>` on `T`.
pub open spec fn ord_greater<T: PartialOrd>() -> spec_fn(T, T) -> bool {
    |a: T, b: T| b.is_lt(&a)
}

/// `compare` accepts any two elements.
pub open spec fn compare_callable<T, R, F: Fn(&T, &T) -> R>(compare: F) -> bool {
    forall|a: &T, b: &T| #[trigger] call_requires(compare, (a, b))
}

/// Every answer of `compare` agrees with the strict weak order `lt`: it is
/// `Less` exactly when `lt` holds.
pub open spec fn answers_ordering_by<T, F: Fn(&T, &T) -> Ordering>(
    compare: F,
    lt: spec_fn(T, T) -> bool,
) -> bool {
    &&& strict_weak_order(lt)
    &&& forall|a: T, b: T, o: Ordering|
        #[trigger] call_ensures(compare, (&a, &b), o) ==> (o == Ordering::Less <==> lt(a, b))
}

/// `key` accepts any element.
pub open spec fn key_callable<T, K, G: Fn(&T) -> K>(key: G) -> bool {
    forall|a: &T| #[trigger] call_requires(key, (a,))
}

/// Every pair of keys that `key` gives agrees with the strict weak order
/// `lt`: the key of `a` is less than the key of `b` exactly when `lt(a, b)`.
pub open spec fn keys_order_by<T, K: PartialOrd, G: Fn(&T) -> K>(
    key: G,
    lt: spec_fn(T, T) -> bool,
) -> bool {
    &&& strict_weak_order(lt)
    &&& K::obeys_partial_cmp_spec()
    &&& forall|a: T, b: T, ka: K, kb: K|
        #![trigger call_ensures(key, (&a,), ka), call_ensures(key, (&b,), kb)]
        call_ensures(key, (&a,), ka) && call_ensures(key, (&b,), kb) ==> (ka.is_lt(&kb) <==> lt(a, b))
}

/// `key` may give for `a` and `b` keys that are in order, when `ok`, or keys
/// that are not, when not `ok`.
pub open spec fn keys_answered<T, K: PartialOrd, G: Fn(&T) -> K>(key: G, a: T, b: T, ok: bool) -> bool {
    exists|ka: K, kb: K|
        call_ensures(key, (&a,), ka) && call_ensures(key, (&b,), kb) && in_order(ka, kb) == ok
}

/// `<` on a type whose comparisons obey the laws of a total order is a
/// strict weak order, and so is `>`.
pub proof fn lemma_ord_strict_weak_order<T: Ord>()
    requires
        obeys_cmp::<T>(),
    ensures
        T::obeys_partial_cmp_spec(),
        strict_weak_order(ord_less::<T>()),
        strict_weak_order(ord_greater::<T>()),
{
    reveal(obeys_cmp_partial_ord);
    reveal(obeys_partial_cmp_spec_properties);
    reveal(obeys_cmp_ord);
    reveal(obeys_eq_spec_properties);
    let lt = ord_less::<T>();
    assert forall|a: T, b: T| #[trigger] lt(a, b) implies !lt(b, a) by {
        assert(b.partial_cmp_spec(&a) == Some(Ordering::Greater));
    }
    assert forall|a: T, b: T, c: T| !#[trigger] lt(a, b) && !#[trigger] lt(b, c) implies !lt(a, c) by {
        assert(a.partial_cmp_spec(&b) == Some(a.cmp_spec(&b)));
        assert(b.partial_cmp_spec(&c) == Some(b.cmp_spec(&c)));
        if lt(a, c) {
            if a.cmp_spec(&b) == Ordering::Equal {
                if b.cmp_spec(&c) == Ordering::Equal {
                    assert(a.eq_spec(&b) && b.eq_spec(&c));
                    assert(a.eq_spec(&c));
                } else {
                    assert(c.partial_cmp_spec(&b) == Some(Ordering::Less));
                    assert(a.partial_cmp_spec(&b) == Some(Ordering::Less));
                }
            } else {
                assert(b.partial_cmp_spec(&a) == Some(Ordering::Less));
                assert(b.partial_cmp_spec(&c) == Some(Ordering::Less));
            }
        }
    }
    let gt = ord_greater::<T>();
    assert forall|a: T, b: T| #[trigger] gt(a, b) implies !gt(b, a) by {
        assert(lt(b, a));
    }
    assert forall|a: T, b: T, c: T| !#[trigger] gt(a, b) && !#[trigger] gt(b, c) implies !gt(a, c) by {
        assert(!lt(b, a) && !lt(c, b));
        assert(!lt(c, a));
    }
}

/// Under the laws of a total order, `a` not less than `b` means `b <= a`.
pub proof fn lemma_not_less_in_order<T: Ord>(a: T, b: T)
    requires
        obeys_cmp::<T>(),
        !ord_less::<T>()(a, b),
    ensures
        in_order(b, a),
{
    reveal(obeys_cmp_partial_ord);
    reveal(obeys_partial_cmp_spec_properties);
    reveal(obeys_cmp_ord);
    reveal(obeys_eq_spec_properties);
    assert(a.partial_cmp_spec(&b) == Some(a.cmp_spec(&b)));
    if a.cmp_spec(&b) == Ordering::Equal {
        assert(a.eq_spec(&b));
        assert(b.eq_spec(&a));
    } else {
        assert(a.partial_cmp_spec(&b) == Some(Ordering::Greater));
    }
}

} // verus!
