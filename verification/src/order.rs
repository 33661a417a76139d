//! The order that `Ord` gives a type, as predicates that contracts can speak
//! of, and what follows from its being total.

use std::cmp::Ordering;
use vstd::laws_cmp::{
    obeys_cmp, obeys_cmp_ord, obeys_cmp_partial_ord, obeys_partial_cmp_spec_properties,
};
use vstd::laws_eq::obeys_eq_spec_properties;
use vstd::prelude::*;
use vstd::std_specs::cmp::{OrdSpec, PartialEqSpec, PartialOrdSpec};

verus! {

/// `a` sorts strictly before `b`.
pub open spec fn below<T: Ord>(a: T, b: T) -> bool {
    a.cmp_spec(&b) == Ordering::Less
}

/// `a` and `b` occupy the same place in the order. For the integers this is
/// equality; in general two different values may be alike.
pub open spec fn alike<T: Ord>(a: T, b: T) -> bool {
    a.cmp_spec(&b) == Ordering::Equal
}

/// `a` sorts strictly after `b`.
pub open spec fn above<T: Ord>(a: T, b: T) -> bool {
    a.cmp_spec(&b) == Ordering::Greater
}

/// `T::cmp` computes `cmp_spec`, and `cmp_spec` is a total order: turning a
/// comparison round turns its result round, and both `below` and `alike`
/// are transitive.
pub open spec fn total_order<T: Ord>() -> bool {
    &&& T::obeys_cmp_spec()
    &&& forall|a: T, b: T|
        #![trigger below(a, b)]
        #![trigger above(b, a)]
        below(a, b) <==> above(b, a)
    &&& forall|a: T, b: T, c: T| #[trigger] below(a, b) && #[trigger] below(b, c) ==> below(a, c)
    &&& forall|a: T, b: T, c: T| #[trigger] alike(a, b) && #[trigger] alike(b, c) ==> alike(a, c)
}

/// A type that keeps the laws that vstd states of `Ord`, `PartialOrd` and
/// `PartialEq` together is totally ordered.
pub proof fn lemma_total_order_from_laws<T: Ord>()
    requires
        obeys_cmp::<T>(),
    ensures
        total_order::<T>(),
{
    reveal(obeys_eq_spec_properties);
    reveal(obeys_partial_cmp_spec_properties);
    reveal(obeys_cmp_partial_ord);
    reveal(obeys_cmp_ord);
    assert forall|a: T, b: T| below(a, b) <==> above(b, a) by {
        assert(a.partial_cmp_spec(&b) == Some(a.cmp_spec(&b)));
        assert(b.partial_cmp_spec(&a) == Some(b.cmp_spec(&a)));
    }
    assert forall|a: T, b: T, c: T| #[trigger]
        below(a, b) && #[trigger] below(b, c) implies below(a, c) by {
        assert(a.partial_cmp_spec(&b) == Some(a.cmp_spec(&b)));
        assert(b.partial_cmp_spec(&c) == Some(b.cmp_spec(&c)));
        assert(a.partial_cmp_spec(&c) == Some(a.cmp_spec(&c)));
    }
    assert forall|a: T, b: T, c: T| #[trigger]
        alike(a, b) && #[trigger] alike(b, c) implies alike(a, c) by {
        assert(a.partial_cmp_spec(&b) == Some(a.cmp_spec(&b)));
        assert(b.partial_cmp_spec(&c) == Some(b.cmp_spec(&c)));
        assert(a.partial_cmp_spec(&c) == Some(a.cmp_spec(&c)));
        assert(a.eq_spec(&b) && b.eq_spec(&c));
    }
}

/// Every value is alike itself.
pub proof fn lemma_alike_reflexive<T: Ord>(a: T)
    requires
        total_order::<T>(),
    ensures
        alike(a, a),
{
    assert(below(a, a) <==> above(a, a));
}

/// `alike` does not depend on the side a value stands on.
pub proof fn lemma_alike_symmetric<T: Ord>(a: T, b: T)
    requires
        total_order::<T>(),
    ensures
        alike(a, b) <==> alike(b, a),
{
    assert(below(a, b) <==> above(b, a));
    assert(below(b, a) <==> above(a, b));
}

/// A value may be replaced by one alike it on the left of `below`.
pub proof fn lemma_alike_then_below<T: Ord>(a: T, b: T, c: T)
    requires
        total_order::<T>(),
        alike(a, b),
        below(b, c),
    ensures
        below(a, c),
{
    lemma_alike_symmetric(a, b);
    if alike(a, c) {
        assert(alike(b, a) && alike(a, c));
    } else if above(a, c) {
        assert(below(c, a) <==> above(a, c));
        assert(below(b, c) && below(c, a));
    }
}

/// A value may be replaced by one alike it on the right of `below`.
pub proof fn lemma_below_then_alike<T: Ord>(a: T, b: T, c: T)
    requires
        total_order::<T>(),
        below(a, b),
        alike(b, c),
    ensures
        below(a, c),
{
    lemma_alike_symmetric(b, c);
    if alike(a, c) {
        assert(alike(a, c) && alike(c, b));
    } else if above(a, c) {
        assert(below(c, a) <==> above(a, c));
        assert(below(c, a) && below(a, b));
        assert(below(c, b) <==> above(b, c));
    }
}

} // verus!
