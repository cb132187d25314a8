//! The ordering that a beap relies on.
//!
//! Elements are compared through `Ord`. Everything here is stated over three
//! relations, `le`, `lt` and `same`, and holds for every element type whose
//! comparison is a total preorder (`total_order`): two elements may compare
//! equal without being the same value.
use core::cmp::Ordering;
use vstd::laws_cmp::obeys_cmp;
use vstd::prelude::*;
use vstd::std_specs::cmp::OrdSpec;
use vstd::std_specs::cmp::PartialEqSpec;
use vstd::std_specs::cmp::PartialOrdSpec;

verus! {

/// The comparison operators of `T` all agree with one total preorder.
pub open spec fn total_order<T: Ord>() -> bool {
    obeys_cmp::<T>()
}

/// `a` does not come after `b`.
pub open spec fn le<T: Ord>(a: T, b: T) -> bool {
    a.cmp_spec(&b) != Ordering::Greater
}

/// `a` comes strictly before `b`.
pub open spec fn lt<T: Ord>(a: T, b: T) -> bool {
    a.cmp_spec(&b) == Ordering::Less
}

/// `a` and `b` compare equal.
pub open spec fn same<T: Ord>(a: T, b: T) -> bool {
    a.cmp_spec(&b) == Ordering::Equal
}

/// The order of `T` is total, and elements that compare equal are equal.
pub open spec fn exact_order<T: Ord>() -> bool {
    &&& total_order::<T>()
    &&& forall|a: T, b: T| #[trigger] same(a, b) ==> a == b
}

/// The order is exact for a type whose `==` is equality, as it is for the
/// integers.
pub proof fn lemma_exact_order<T: Ord>()
    requires
        total_order::<T>(),
        vstd::laws_eq::obeys_concrete_eq::<T>(),
    ensures
        exact_order::<T>(),
{
    reveal(vstd::laws_cmp::obeys_cmp_ord);
    reveal(vstd::laws_cmp::obeys_cmp_partial_ord);
    reveal(vstd::laws_eq::obeys_concrete_eq);
    assert forall|a: T, b: T| #[trigger] same(a, b) implies a == b by {
        assert(a.partial_cmp_spec(&b) == Some(a.cmp_spec(&b)));
        assert(a.eq_spec(&b));
    }
}

/// `a < b`.
pub fn is_lt<T: Ord>(a: &T, b: &T) -> (r: bool)
    requires
        total_order::<T>(),
    ensures
        r == lt(*a, *b),
{
    proof {
        reveal(vstd::laws_cmp::obeys_cmp_ord);
        reveal(vstd::laws_cmp::obeys_cmp_partial_ord);
    }
    *a < *b
}

/// `a > b`.
pub fn is_gt<T: Ord>(a: &T, b: &T) -> (r: bool)
    requires
        total_order::<T>(),
    ensures
        r == lt(*b, *a),
{
    proof {
        reveal(vstd::laws_cmp::obeys_cmp_ord);
        reveal(vstd::laws_cmp::obeys_cmp_partial_ord);
        lemma_flip(*a, *b);
        lemma_flip(*b, *a);
    }
    *a > *b
}

/// `a >= b`.
pub fn is_ge<T: Ord>(a: &T, b: &T) -> (r: bool)
    requires
        total_order::<T>(),
    ensures
        r == le(*b, *a),
{
    proof {
        reveal(vstd::laws_cmp::obeys_cmp_ord);
        reveal(vstd::laws_cmp::obeys_cmp_partial_ord);
        lemma_flip(*a, *b);
        lemma_flip(*b, *a);
    }
    *a >= *b
}

/// `a == b`.
pub fn is_same<T: Ord>(a: &T, b: &T) -> (r: bool)
    requires
        total_order::<T>(),
    ensures
        r == same(*a, *b),
{
    proof {
        reveal(vstd::laws_cmp::obeys_cmp_ord);
        reveal(vstd::laws_cmp::obeys_cmp_partial_ord);
    }
    *a == *b
}

/// The comparison of `y` with `x`: the order of `T` turned round.
pub fn reversed<T: Ord>(x: &T, y: &T) -> (r: Ordering)
    requires
        total_order::<T>(),
    ensures
        r == y.cmp_spec(x),
{
    proof {
        reveal(vstd::laws_cmp::obeys_cmp_ord);
    }
    y.cmp(x)
}

/// Comparing in one direction fixes the result in the other.
pub proof fn lemma_flip<T: Ord>(a: T, b: T)
    requires
        total_order::<T>(),
    ensures
        lt(a, b) <==> !le(b, a),
        same(a, b) <==> same(b, a),
        same(a, b) <==> le(a, b) && le(b, a),
        le(a, b) || le(b, a),
{
    reveal(vstd::laws_cmp::obeys_cmp_ord);
    reveal(vstd::laws_cmp::obeys_cmp_partial_ord);
    reveal(vstd::laws_cmp::obeys_partial_cmp_spec_properties);
    reveal(vstd::laws_eq::obeys_eq_spec_properties);
    assert(a.partial_cmp_spec(&b) == Some(a.cmp_spec(&b)));
    assert(b.partial_cmp_spec(&a) == Some(b.cmp_spec(&a)));
    assert(a.eq_spec(&b) <==> b.eq_spec(&a));
}

/// Every element compares equal to itself.
pub proof fn lemma_reflexive<T: Ord>(a: T)
    requires
        total_order::<T>(),
    ensures
        same(a, a),
        le(a, a),
{
    lemma_flip(a, a);
}

/// `le` is transitive.
pub proof fn lemma_transitive<T: Ord>(a: T, b: T, c: T)
    requires
        total_order::<T>(),
        le(a, b),
        le(b, c),
    ensures
        le(a, c),
        lt(a, b) || lt(b, c) ==> lt(a, c),
{
    reveal(vstd::laws_cmp::obeys_cmp_ord);
    reveal(vstd::laws_cmp::obeys_cmp_partial_ord);
    reveal(vstd::laws_cmp::obeys_partial_cmp_spec_properties);
    reveal(vstd::laws_eq::obeys_eq_spec_properties);
    assert(a.partial_cmp_spec(&b) == Some(a.cmp_spec(&b)));
    assert(b.partial_cmp_spec(&c) == Some(b.cmp_spec(&c)));
    assert(a.partial_cmp_spec(&c) == Some(a.cmp_spec(&c)));
    assert(c.partial_cmp_spec(&a) == Some(c.cmp_spec(&a)));
    assert(c.partial_cmp_spec(&b) == Some(c.cmp_spec(&b)));
    assert(b.partial_cmp_spec(&a) == Some(b.cmp_spec(&a)));
    assert(a.eq_spec(&b) <==> b.eq_spec(&a));
    assert(b.eq_spec(&c) <==> c.eq_spec(&b));
    assert(a.eq_spec(&c) <==> c.eq_spec(&a));
}

/// Elements that compare equal stand in the same relation to every other.
pub proof fn lemma_same_replaces<T: Ord>(a: T, b: T, c: T)
    requires
        total_order::<T>(),
        same(a, b),
    ensures
        le(a, c) <==> le(b, c),
        le(c, a) <==> le(c, b),
        same(a, c) <==> same(b, c),
{
    lemma_flip(a, b);
    lemma_flip(a, c);
    lemma_flip(b, c);
    if le(a, c) {
        lemma_transitive(b, a, c);
    }
    if le(b, c) {
        lemma_transitive(a, b, c);
    }
    if le(c, a) {
        lemma_transitive(c, a, b);
    }
    if le(c, b) {
        lemma_transitive(c, b, a);
    }
}

} // verus!
