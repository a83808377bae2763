//! The order on elements: what the comparison operators of an `Ord` type
//! decide, and the laws that the sorting routines rely on.

use vstd::prelude::*;
use vstd::laws_cmp::obeys_cmp;
use vstd::laws_eq::obeys_concrete_eq;
use vstd::relations::total_ordering;
use vstd::std_specs::cmp::PartialOrdSpec;
use core::cmp::Ordering;

verus! {

/// `a` is strictly below `b`: what `a < b` decides.
pub open spec fn lt<T: Ord>(a: T, b: T) -> bool {
    a.partial_cmp_spec(&b) == Some(Ordering::Less)
}

/// `a` is below `b` or is `b` itself.
pub open spec fn le<T: Ord>(a: T, b: T) -> bool {
    lt(a, b) || a == b
}

/// `le` as a relation, in the form that the relation lemmas of vstd take.
pub open spec fn leq<T: Ord>() -> spec_fn(T, T) -> bool {
    |a: T, b: T| le(a, b)
}

/// The comparison operators of `T` describe a total order on its values:
/// they are deterministic and consistent with each other, and two values
/// compare equal exactly when they are the same value.
pub open spec fn total_order<T: Ord>() -> bool {
    obeys_cmp::<T>() && obeys_concrete_eq::<T>()
}

/// Under a total order `lt` is irreflexive, asymmetric and transitive, any
/// two distinct values are ordered one way or the other, and `le` is a total
/// ordering.
pub proof fn lemma_total_order<T: Ord>()
    requires
        total_order::<T>(),
    ensures
        forall|a: T| !#[trigger] lt(a, a),
        forall|a: T, b: T| #[trigger] lt(a, b) ==> !lt(b, a),
        forall|a: T, b: T| a == b || #[trigger] lt(a, b) || lt(b, a),
        forall|a: T, b: T, c: T| #[trigger] lt(a, b) && #[trigger] lt(b, c) ==> lt(a, c),
        forall|a: T, b: T, c: T| #[trigger] le(a, b) && #[trigger] le(b, c) ==> le(a, c),
        total_ordering(leq::<T>()),
{
    reveal(vstd::laws_cmp::obeys_cmp_partial_ord);
    reveal(vstd::laws_cmp::obeys_cmp_ord);
    reveal(vstd::laws_cmp::obeys_partial_cmp_spec_properties);
    reveal(obeys_concrete_eq);
    assert forall|a: T, b: T| a == b || #[trigger] lt(a, b) || lt(b, a) by {
        if a.partial_cmp_spec(&b) == Some(Ordering::Greater) {
            assert(b.partial_cmp_spec(&a) == Some(Ordering::Less));
        }
    }
    assert forall|a: T, b: T| #[trigger] lt(a, b) implies !lt(b, a) by {
        assert(b.partial_cmp_spec(&a) == Some(Ordering::Greater));
    }
}

/// Decides `lt`.
pub fn less<T: Ord>(a: &T, b: &T) -> (r: bool)
    requires
        total_order::<T>(),
    ensures
        r == lt(*a, *b),
{
    proof {
        reveal(vstd::laws_cmp::obeys_cmp_partial_ord);
    }
    *a < *b
}

/// Decides whether two values are the same.
pub fn same<T: Ord>(a: &T, b: &T) -> (r: bool)
    requires
        total_order::<T>(),
    ensures
        r == (*a == *b),
{
    proof {
        reveal(vstd::laws_cmp::obeys_cmp_partial_ord);
        reveal(obeys_concrete_eq);
    }
    *a == *b
}

} // verus!
