//! Beap iterators.
//!
//! Each iterator holds the elements that are still to come, a borrowing one
//! as a slice and an owning one as a queue, and its view is the sequence of
//! them: what `next` and `next_back` give is stated over that sequence.
use crate::storage::deque_of;
use crate::Beap;
use std::collections::VecDeque;
use vstd::prelude::*;
use vstd::std_specs::iter::DoubleEndedIteratorSpecImpl;
use vstd::std_specs::iter::IteratorSpecImpl;

verus! {

/// An iterator over the elements of a `Beap`: the elements that are still to
/// come, in the order in which the beap stores them.
#[derive(Clone, Debug)]
pub struct Iter<'a, T: 'a>(&'a [T]);

/// An owning iterator over the elements of a `Beap`.
#[derive(Clone, Debug)]
pub struct IntoIter<T>(VecDeque<T>);

/// A draining iterator over the elements of a `Beap`.
#[derive(Debug)]
pub struct Drain<T>(VecDeque<T>);

impl<'a, T> View for Iter<'a, T> {
    type V = Seq<T>;

    /// The elements that the iterator has not given yet.
    closed spec fn view(&self) -> Seq<T> {
        self.0@
    }
}

impl<T> View for IntoIter<T> {
    type V = Seq<T>;

    /// The elements that the iterator has not given yet.
    closed spec fn view(&self) -> Seq<T> {
        self.0@
    }
}

impl<T> View for Drain<T> {
    type V = Seq<T>;

    /// The elements that the iterator has not given yet.
    closed spec fn view(&self) -> Seq<T> {
        self.0@
    }
}

impl<T> Beap<T> {
    /// Returns an iterator visiting all values in the underlying vector, in
    /// arbitrary order.
    pub fn iter(&self) -> (r: Iter<'_, T>)
        ensures
            r@ == self@,
    {
        Iter(self.data.as_slice())
    }

    /// Clears the bi-parental heap, returning an iterator over the removed
    /// elements in arbitrary order.
    pub fn drain(&mut self) -> (r: Drain<T>)
        ensures
            r@ == old(self)@,
            final(self)@ == Seq::<T>::empty(),
            final(self).rows() == 0,
    {
        self.height = 0;
        let mut data = Vec::new();
        core::mem::swap(&mut data, &mut self.data);
        Drain(deque_of(data))
    }
}

impl<'a, T> Iter<'a, T> {
    /// The number of elements that are still to come, as the lower and the
    /// upper bound.
    pub fn size_hint(&self) -> (r: (usize, Option<usize>))
        ensures
            r == (self@.len() as usize, Some(self@.len() as usize)),
    {
        (self.0.len(), Some(self.0.len()))
    }

    /// The last of the elements that are still to come.
    pub fn last(self) -> (r: Option<&'a T>)
        ensures
            self@.len() == 0 ==> r is None,
            self@.len() > 0 ==> r == Some(&self@.last()),
    {
        let n = self.0.len();
        if n == 0 {
            None
        } else {
            Some(&self.0[n - 1])
        }
    }
}

impl<T> Drain<T> {
    /// The number of elements that are still to come, as the lower and the
    /// upper bound.
    pub fn size_hint(&self) -> (r: (usize, Option<usize>))
        ensures
            r == (self@.len() as usize, Some(self@.len() as usize)),
    {
        let n = self.0.len();
        (n, Some(n))
    }
}

impl<'a, T> Iterator for Iter<'a, T> {
    type Item = &'a T;

    fn next(&mut self) -> (r: Option<&'a T>) {
        let n = self.0.len();
        if n == 0 {
            None
        } else {
            let first = &self.0[0];
            self.0 = &self.0[1..n];
            assert(self.0@.map(|i: int, v: T| &v) =~= old(self).0@.map(
                |i: int, v: T| &v,
            ).drop_first());
            Some(first)
        }
    }
}

impl<'a, T> IteratorSpecImpl for Iter<'a, T> {
    open spec fn obeys_prophetic_iter_laws(&self) -> bool {
        true
    }

    open spec fn remaining(&self) -> Seq<Self::Item> {
        self@.map(|i: int, v: T| &v)
    }

    open spec fn will_return_none(&self) -> bool {
        true
    }

    open spec fn decrease(&self) -> Option<nat> {
        Some(self@.len())
    }

    open spec fn initial_value_relation(&self, init: &Self) -> bool {
        true
    }

    open spec fn peek(&self, index: int) -> Option<Self::Item> {
        None
    }
}

impl<'a, T> DoubleEndedIterator for Iter<'a, T> {
    fn next_back(&mut self) -> (r: Option<&'a T>) {
        let n = self.0.len();
        if n == 0 {
            None
        } else {
            let last = &self.0[n - 1];
            self.0 = &self.0[0..n - 1];
            assert(self.0@.map(|i: int, v: T| &v) =~= old(self).0@.map(
                |i: int, v: T| &v,
            ).drop_last());
            Some(last)
        }
    }
}

impl<'a, T> DoubleEndedIteratorSpecImpl for Iter<'a, T> {
    open spec fn peek_back(&self, index: int) -> Option<Self::Item> {
        None
    }
}

impl<T> Iterator for IntoIter<T> {
    type Item = T;

    fn next(&mut self) -> (r: Option<T>) {
        self.0.pop_front()
    }
}

impl<T> IteratorSpecImpl for IntoIter<T> {
    open spec fn obeys_prophetic_iter_laws(&self) -> bool {
        true
    }

    open spec fn remaining(&self) -> Seq<Self::Item> {
        self@
    }

    open spec fn will_return_none(&self) -> bool {
        true
    }

    open spec fn decrease(&self) -> Option<nat> {
        Some(self@.len())
    }

    open spec fn initial_value_relation(&self, init: &Self) -> bool {
        true
    }

    open spec fn peek(&self, index: int) -> Option<Self::Item> {
        None
    }
}

impl<T> DoubleEndedIterator for IntoIter<T> {
    fn next_back(&mut self) -> (r: Option<T>) {
        self.0.pop_back()
    }
}

impl<T> DoubleEndedIteratorSpecImpl for IntoIter<T> {
    open spec fn peek_back(&self, index: int) -> Option<Self::Item> {
        None
    }
}

impl<T> Iterator for Drain<T> {
    type Item = T;

    fn next(&mut self) -> (r: Option<T>) {
        self.0.pop_front()
    }
}

impl<T> IteratorSpecImpl for Drain<T> {
    open spec fn obeys_prophetic_iter_laws(&self) -> bool {
        true
    }

    open spec fn remaining(&self) -> Seq<Self::Item> {
        self@
    }

    open spec fn will_return_none(&self) -> bool {
        true
    }

    open spec fn decrease(&self) -> Option<nat> {
        Some(self@.len())
    }

    open spec fn initial_value_relation(&self, init: &Self) -> bool {
        true
    }

    open spec fn peek(&self, index: int) -> Option<Self::Item> {
        None
    }
}

impl<T> DoubleEndedIterator for Drain<T> {
    fn next_back(&mut self) -> (r: Option<T>) {
        self.0.pop_back()
    }
}

impl<T> DoubleEndedIteratorSpecImpl for Drain<T> {
    open spec fn peek_back(&self, index: int) -> Option<Self::Item> {
        None
    }
}

impl<T> IntoIterator for Beap<T> {
    type Item = T;

    type IntoIter = IntoIter<T>;

    /// Creates a consuming iterator, that is, one that moves each value out of
    /// the beap in arbitrary order.
    fn into_iter(self) -> (r: IntoIter<T>)
        ensures
            r@ == self@,
    {
        IntoIter(deque_of(self.data))
    }
}

impl<'a, T> IntoIterator for &'a Beap<T> {
    type Item = &'a T;

    type IntoIter = Iter<'a, T>;

    /// Returns an iterator visiting all values in the underlying vector, in
    /// arbitrary order.
    fn into_iter(self) -> (r: Iter<'a, T>)
        ensures
            r@ == self@,
    {
        self.iter()
    }
}

} // verus!
