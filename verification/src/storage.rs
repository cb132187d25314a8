//! The standard vector operations that the beap hands through and that come
//! without a specification. Their bodies are not verified: each contract
//! states what the standard library documents of the call.
use crate::order::{le, reversed, total_order};
use std::collections::TryReserveError;
use std::collections::VecDeque;
use vstd::prelude::*;

verus! {

/// A vector may hold `n` elements of type `T`: `n` is a length that a `usize`
/// can count, and the elements together stay within the size that an
/// allocation may have.
pub open spec fn can_hold<T>(n: int) -> bool {
    &&& n <= usize::MAX
    &&& n * vstd::layout::size_of::<T>() <= isize::MAX
}

/// No element of `s` comes after a later one.
pub open spec fn ascending<T: Ord>(s: Seq<T>) -> bool {
    forall|i: int, j: int| 0 <= i <= j < s.len() ==> le(#[trigger] s[i], #[trigger] s[j])
}

/// No element of `s` comes before a later one.
pub open spec fn descending<T: Ord>(s: Seq<T>) -> bool {
    forall|i: int, j: int| 0 <= i <= j < s.len() ==> le(#[trigger] s[j], #[trigger] s[i])
}

/// `Vec::capacity`: the number of elements that the vector can hold without
/// reallocating, which is at least its length.
#[verifier::external_body]
pub(crate) fn capacity_of<T>(v: &Vec<T>) -> (c: usize)
    ensures
        c >= v@.len(),
{
    v.capacity()
}

/// `Vec::reserve_exact`: the elements stay as they are. The call panics where
/// the new capacity exceeds `isize::MAX` bytes, or where the length and
/// `additional` together go past `usize::MAX`, as they can for elements of
/// size zero.
#[verifier::external_body]
pub(crate) fn reserve_exact_in<T>(v: &mut Vec<T>, additional: usize)
    requires
        can_hold::<T>(old(v)@.len() + additional),
    ensures
        final(v)@ == old(v)@,
{
    v.reserve_exact(additional)
}

/// `Vec::try_reserve_exact`: the elements stay as they are, whether or not
/// the capacity could be had. After `Ok` the capacity, a `usize`, is no less
/// than the length and `additional` together, so the two do not go past
/// `usize::MAX`.
#[verifier::external_body]
pub(crate) fn try_reserve_exact_in<T>(v: &mut Vec<T>, additional: usize) -> (r: Result<
    (),
    TryReserveError,
>)
    ensures
        final(v)@ == old(v)@,
        r is Ok ==> old(v)@.len() + additional <= usize::MAX,
{
    v.try_reserve_exact(additional)
}

/// `Vec::shrink_to_fit`: the elements stay as they are.
#[verifier::external_body]
pub(crate) fn shrink_to_fit_in<T>(v: &mut Vec<T>)
    ensures
        final(v)@ == old(v)@,
{
    v.shrink_to_fit()
}

/// `Vec::shrink_to`: the elements stay as they are.
#[verifier::external_body]
pub(crate) fn shrink_to_in<T>(v: &mut Vec<T>, min_capacity: usize)
    ensures
        final(v)@ == old(v)@,
{
    v.shrink_to(min_capacity)
}

/// `Vec::leak`: the slice holds the elements of the vector, in their order.
#[verifier::external_body]
pub(crate) fn leak_of<'a, T>(v: Vec<T>) -> (r: &'a mut [T])
    ensures
        r@ == v@,
{
    v.leak()
}

/// `Vec::into_boxed_slice`: the slice holds the elements of the vector, in
/// their order.
#[verifier::external_body]
pub(crate) fn boxed_slice_of<T>(v: Vec<T>) -> (r: Box<[T]>)
    ensures
        r@ == v@,
{
    v.into_boxed_slice()
}

/// `VecDeque::from` a vector: the queue holds the elements of the vector, in
/// their order.
#[verifier::external_body]
pub(crate) fn deque_of<T>(v: Vec<T>) -> (r: VecDeque<T>)
    ensures
        r@ == v@,
{
    VecDeque::from(v)
}

/// `slice::sort_unstable`: the same elements, in ascending order. The call
/// may panic where the order of `T` is not total.
#[verifier::external_body]
pub(crate) fn sort_ascending<T: Ord>(v: &mut Vec<T>)
    requires
        total_order::<T>(),
    ensures
        final(v)@.to_multiset() == old(v)@.to_multiset(),
        final(v)@.len() == old(v)@.len(),
        ascending(final(v)@),
{
    v.sort_unstable()
}

/// `slice::sort_unstable_by` with the arguments of the comparison exchanged:
/// the same elements, in descending order. The call may panic where the order
/// of `T` is not total.
#[verifier::external_body]
pub(crate) fn sort_descending<T: Ord>(v: &mut Vec<T>)
    requires
        total_order::<T>(),
    ensures
        final(v)@.to_multiset() == old(v)@.to_multiset(),
        final(v)@.len() == old(v)@.len(),
        descending(final(v)@),
{
    v.sort_unstable_by(|x, y| reversed(x, y))
}

} // verus!
