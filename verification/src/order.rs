//! What a lawful `Ord` gives: the three ways two values can compare, and that
//! "less" carries over.

use vstd::prelude::*;
use vstd::laws_cmp::{
    obeys_cmp,
    obeys_cmp_ord,
    obeys_cmp_partial_ord,
    obeys_partial_cmp_spec_properties,
};
use vstd::laws_eq::obeys_eq_spec_properties;
use vstd::std_specs::cmp::{PartialEqSpec, PartialOrdSpec, OrdSpec};
use core::cmp::Ordering;

verus! {

/// Whether the comparisons of `T` are a total order that `==` agrees with.
pub open spec fn lawful<T: Ord>() -> bool {
    obeys_cmp::<T>()
}

/// `a` compares less than `b`.
pub open spec fn less<T: Ord>(a: T, b: T) -> bool {
    a.partial_cmp_spec(&b) == Some(Ordering::Less)
}

/// `a` compares greater than `b`.
pub open spec fn greater<T: Ord>(a: T, b: T) -> bool {
    a.partial_cmp_spec(&b) == Some(Ordering::Greater)
}

/// `a` compares equal to `b`.
pub open spec fn same<T: Ord>(a: T, b: T) -> bool {
    a.eq_spec(&b)
}

/// Of two values exactly one holds: the first is less, they are the same, or
/// the second is less.
pub proof fn lemma_three_ways<T: Ord>(a: T, b: T)
    requires
        lawful::<T>(),
    ensures
        T::obeys_eq_spec(),
        T::obeys_partial_cmp_spec(),
        less(a, b) || same(a, b) || less(b, a),
        !(less(a, b) && same(a, b)),
        !(less(a, b) && less(b, a)),
        !(same(a, b) && less(b, a)),
        greater(a, b) <==> less(b, a),
        same(a, b) <==> same(b, a),
{
    reveal(obeys_cmp_partial_ord);
    reveal(obeys_cmp_ord);
    reveal(obeys_partial_cmp_spec_properties);
    reveal(obeys_eq_spec_properties);
    assert(a.partial_cmp_spec(&b) == Some(a.cmp_spec(&b)));
    assert(b.partial_cmp_spec(&a) == Some(b.cmp_spec(&a)));
}

/// "Less" carries over.
pub proof fn lemma_less_transitive<T: Ord>(a: T, b: T, c: T)
    requires
        lawful::<T>(),
        less(a, b),
        less(b, c),
    ensures
        less(a, c),
{
    reveal(obeys_partial_cmp_spec_properties);
}

} // verus!
