//! The order on keys.
//!
//! A key type brings its order through `Ord`. Everything the index proves
//! rests on that order being a lawful total order, which is what
//! `total_order` demands. Two keys that compare equal need not be the same
//! value: a key may carry data that the comparison ignores.

use core::cmp::Ordering;
use vstd::laws_cmp::{
    obeys_cmp, obeys_cmp_ord, obeys_cmp_partial_ord, obeys_partial_cmp_spec_properties,
};
use vstd::laws_eq::obeys_eq_spec_properties;
use vstd::prelude::*;
use vstd::std_specs::cmp::{OrdSpec, PartialEqSpec, PartialOrdSpec};

verus! {

/// Whether the comparison operators of `T` all describe one total order.
pub open spec fn total_order<T: Ord>() -> bool {
    obeys_cmp::<T>()
}

/// `a` comes strictly before `b`.
pub open spec fn lt<T: Ord>(a: T, b: T) -> bool {
    a.cmp_spec(&b) == Ordering::Less
}

/// `a` and `b` take the same place in the order.
pub open spec fn equiv<T: Ord>(a: T, b: T) -> bool {
    a.cmp_spec(&b) == Ordering::Equal
}

/// Of two keys exactly one holds: the first comes before the second, they
/// are equivalent, or the second comes before the first. Equivalence is
/// reflexive and symmetric.
pub proof fn lemma_trichotomy<T: Ord>(a: T, b: T)
    requires
        total_order::<T>(),
    ensures
        lt(a, b) || equiv(a, b) || lt(b, a),
        !(lt(a, b) && equiv(a, b)),
        !(lt(a, b) && lt(b, a)),
        !(equiv(a, b) && lt(b, a)),
        equiv(a, b) == equiv(b, a),
        equiv(a, a),
{
    reveal(obeys_cmp_ord);
    reveal(obeys_cmp_partial_ord);
    reveal(obeys_partial_cmp_spec_properties);
    reveal(obeys_eq_spec_properties);
    assert(a.partial_cmp_spec(&b) == Some(a.cmp_spec(&b)));
    assert(b.partial_cmp_spec(&a) == Some(b.cmp_spec(&a)));
    assert(a.partial_cmp_spec(&a) == Some(a.cmp_spec(&a)));
    assert(a.eq_spec(&b) == b.eq_spec(&a));
}

/// Strictly-before is transitive.
pub proof fn lemma_lt_transitive<T: Ord>(a: T, b: T, c: T)
    requires
        total_order::<T>(),
        lt(a, b),
        lt(b, c),
    ensures
        lt(a, c),
{
    reveal(obeys_cmp_ord);
    reveal(obeys_partial_cmp_spec_properties);
    assert(a.partial_cmp_spec(&b) == Some(a.cmp_spec(&b)));
    assert(b.partial_cmp_spec(&c) == Some(b.cmp_spec(&c)));
    assert(a.partial_cmp_spec(&c) == Some(a.cmp_spec(&c)));
}

/// Equivalence is transitive.
pub proof fn lemma_equiv_transitive<T: Ord>(a: T, b: T, c: T)
    requires
        total_order::<T>(),
        equiv(a, b),
        equiv(b, c),
    ensures
        equiv(a, c),
{
    reveal(obeys_cmp_ord);
    reveal(obeys_cmp_partial_ord);
    reveal(obeys_eq_spec_properties);
    assert(a.partial_cmp_spec(&b) == Some(a.cmp_spec(&b)));
    assert(b.partial_cmp_spec(&c) == Some(b.cmp_spec(&c)));
    assert(a.partial_cmp_spec(&c) == Some(a.cmp_spec(&c)));
    assert(a.eq_spec(&b) && b.eq_spec(&c));
}

/// Equivalent keys stand in the same relation to every other key.
pub proof fn lemma_equiv_congruent<T: Ord>(a: T, b: T, c: T)
    requires
        total_order::<T>(),
        equiv(a, b),
    ensures
        lt(a, c) == lt(b, c),
        lt(c, a) == lt(c, b),
        equiv(a, c) == equiv(b, c),
{
    lemma_trichotomy(a, b);
    lemma_trichotomy(a, c);
    lemma_trichotomy(b, c);
    if equiv(a, c) {
        lemma_equiv_transitive(b, a, c);
    }
    if equiv(b, c) {
        lemma_equiv_transitive(a, b, c);
    }
    if lt(a, c) && lt(c, b) {
        lemma_lt_transitive(a, c, b);
    }
    if lt(b, c) && lt(c, a) {
        lemma_lt_transitive(b, c, a);
    }
}

/// Whether `a` comes strictly before `b`.
pub fn less<T: Ord>(a: &T, b: &T) -> (r: bool)
    requires
        total_order::<T>(),
    ensures
        r == lt(*a, *b),
{
    proof {
        reveal(obeys_cmp_ord);
        reveal(obeys_cmp_partial_ord);
        assert(a.partial_cmp_spec(b) == Some(a.cmp_spec(b)));
    }
    *a < *b
}

/// Whether `a` and `b` take the same place in the order.
pub fn same<T: Ord>(a: &T, b: &T) -> (r: bool)
    requires
        total_order::<T>(),
    ensures
        r == equiv(*a, *b),
{
    proof {
        reveal(obeys_cmp_ord);
        reveal(obeys_cmp_partial_ord);
        assert(a.partial_cmp_spec(b) == Some(a.cmp_spec(b)));
    }
    *a == *b
}

} // verus!
