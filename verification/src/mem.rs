//! Memory management.
use crate::layout::height_for;
use crate::order::total_order;
use crate::shape::lemma_descending_beap;
use crate::sift::{pushed, pushed_all};
use crate::storage::{
    ascending, boxed_slice_of, can_hold, capacity_of, descending, leak_of, reserve_exact_in,
    shrink_to_fit_in, shrink_to_in, sort_ascending, sort_descending, try_reserve_exact_in,
};
use crate::Beap;
use std::collections::TryReserveError;
use vstd::prelude::*;
use vstd::std_specs::iter::IteratorSpec;

verus! {

impl<T> Beap<T> {
    /// Creates an empty `Beap` as a max-beap.
    pub fn new() -> (r: Beap<T>)
        ensures
            r@ == Seq::<T>::empty(),
            r.rows() == 0,
    {
        Beap { data: Vec::new(), height: 0 }
    }

    /// Creates an empty `Beap` with a specific capacity.
    /// This preallocates enough memory for `capacity` elements,
    /// so that the `Beap` does not have to be reallocated
    /// until it contains at least that many values.
    pub fn with_capacity(capacity: usize) -> (r: Beap<T>)
        requires
            can_hold::<T>(capacity as int),
        ensures
            r@ == Seq::<T>::empty(),
            r.rows() == 0,
    {
        Beap { data: Vec::with_capacity(capacity), height: 0 }
    }

    /// Returns the number of elements the beap can hold without reallocating.
    pub fn capacity(&self) -> (c: usize)
        ensures
            c >= self@.len(),
    {
        capacity_of(&self.data)
    }

    /// Extracts a slice containing the underlying vector.
    pub fn as_slice(&self) -> (r: &[T])
        ensures
            r@ == self@,
    {
        self.data.as_slice()
    }

    /// Reserves the minimum capacity for exactly `additional` more elements to
    /// be inserted in the given `Beap`. Does nothing if the capacity is already
    /// sufficient.
    pub fn reserve_exact(&mut self, additional: usize)
        requires
            can_hold::<T>(old(self)@.len() + additional),
        ensures
            final(self)@ == old(self)@,
            final(self).rows() == old(self).rows(),
    {
        reserve_exact_in(&mut self.data, additional);
    }

    /// Reserves capacity for at least `additional` more elements to be
    /// inserted in the `Beap`. The collection may reserve more space to avoid
    /// frequent reallocations.
    pub fn reserve(&mut self, additional: usize)
        requires
            can_hold::<T>(old(self)@.len() + additional),
        ensures
            final(self)@ == old(self)@,
            final(self).rows() == old(self).rows(),
    {
        self.data.reserve(additional);
    }

    /// Discards as much additional capacity as possible.
    pub fn shrink_to_fit(&mut self)
        ensures
            final(self)@ == old(self)@,
            final(self).rows() == old(self).rows(),
    {
        shrink_to_fit_in(&mut self.data);
    }

    /// Discards capacity with a lower bound.
    ///
    /// The capacity will remain at least as large as both the length
    /// and the supplied value.
    pub fn shrink_to(&mut self, min_capacity: usize)
        ensures
            final(self)@ == old(self)@,
            final(self).rows() == old(self).rows(),
    {
        shrink_to_in(&mut self.data, min_capacity);
    }

    /// Consumes the `Beap<T>` and returns the underlying vector `Vec<T>`
    /// in arbitrary order.
    pub fn into_vec(self) -> (r: Vec<T>)
        ensures
            r@ == self@,
    {
        self.data
    }

    /// Returns the length of the beap.
    pub fn len(&self) -> (n: usize)
        ensures
            n == self@.len(),
    {
        self.data.len()
    }

    /// Checks if the beap is empty.
    pub fn is_empty(&self) -> (r: bool)
        ensures
            r == (self@.len() == 0),
    {
        self.len() == 0
    }

    /// Drops all items from the beap.
    pub fn clear(&mut self)
        ensures
            final(self)@ == Seq::<T>::empty(),
            final(self).rows() == 0,
    {
        self.height = 0;
        self.data.clear();
    }

    /// Consumes and leaks the `Vec`, returning a mutable reference to the
    /// contents, `&'a mut [T]`.
    pub fn leak<'a>(self) -> (r: &'a mut [T])
        ensures
            r@ == self@,
    {
        leak_of(self.data)
    }

    /// Converts the beap into `Box<[T]>`.
    pub fn into_boxed_slice(self) -> (r: Box<[T]>)
        ensures
            r@ == self@,
    {
        boxed_slice_of(self.data)
    }

    /// Tries to reserve capacity for at least `additional` more elements to be
    /// inserted in the underlying `Vec<T>`. This method preserves the contents
    /// even if an error occurs. To reserve nothing always succeeds; whether
    /// more can be had is for the allocator to say.
    pub fn try_reserve(&mut self, additional: usize) -> (r: Result<(), TryReserveError>)
        ensures
            final(self)@ == old(self)@,
            final(self).rows() == old(self).rows(),
            additional == 0 ==> r is Ok,
    {
        if additional == 0 {
            return Ok(());
        }
        self.data.try_reserve(additional)
    }

    /// Tries to reserve the minimum capacity for at least `additional`
    /// elements to be inserted in the underlying `Vec<T>`. This method
    /// preserves the contents even if an error occurs. To reserve nothing
    /// always succeeds, and a request that takes the length past `usize::MAX`
    /// always fails; in between it is for the allocator to say.
    pub fn try_reserve_exact(&mut self, additional: usize) -> (r: Result<(), TryReserveError>)
        ensures
            final(self)@ == old(self)@,
            final(self).rows() == old(self).rows(),
            additional == 0 ==> r is Ok,
            old(self)@.len() + additional > usize::MAX ==> r is Err,
    {
        if additional == 0 {
            proof {
                assert(self.data.len() == self.data@.len());
            }
            return Ok(());
        }
        try_reserve_exact_in(&mut self.data, additional)
    }

    /// Returns the greatest item in the beap, or `None` if it is empty.
    pub fn peek(&self) -> (r: Option<&T>)
        ensures
            self@.len() == 0 ==> r is None,
            self@.len() > 0 ==> r == Some(&self@[0]),
    {
        if self.data.len() == 0 {
            None
        } else {
            Some(&self.data[0])
        }
    }

    /// Get an item at the specified position.
    ///
    /// Returns `None` if the `pos` goes beyond the beap.
    pub fn get(&self, pos: usize) -> (r: Option<&T>)
        ensures
            pos >= self@.len() ==> r is None,
            pos < self@.len() ==> r == Some(&self@[pos as int]),
    {
        if pos < self.data.len() {
            Some(&self.data[pos])
        } else {
            None
        }
    }
}

impl<T: Ord> Beap<T> {
    /// Converts a `Vec<T>` into a `Beap<T>`: the elements in descending order.
    pub fn from(vec: Vec<T>) -> (r: Beap<T>)
        requires
            total_order::<T>(),
        ensures
            r.wf(),
            r@.len() == vec@.len(),
            r@.to_multiset() == vec@.to_multiset(),
            descending(r@),
    {
        let mut vec = vec;
        sort_descending(&mut vec);
        let h = height_for(vec.len());
        proof {
            lemma_descending_beap(vec@);
        }
        Beap { data: vec, height: h }
    }
}

impl<T: Ord> Beap<T> {
    /// Consumes the `Beap` and returns a vector in sorted (ascending) order.
    pub fn into_sorted_vec(self) -> (r: Vec<T>)
        requires
            total_order::<T>(),
        ensures
            r@.len() == self@.len(),
            r@.to_multiset() == self@.to_multiset(),
            ascending(r@),
    {
        let mut data = self.data;
        sort_ascending(&mut data);
        data
    }

    /// Moves all the elements of `other` into `self`, leaving `other` empty.
    pub fn append(&mut self, other: &mut Self)
        requires
            total_order::<T>(),
            old(self)@.len() + old(other)@.len() <= usize::MAX,
        ensures
            final(self).wf(),
            final(self)@.len() == old(self)@.len() + old(other)@.len(),
            final(self)@.to_multiset() == old(self)@.to_multiset().add(old(other)@.to_multiset()),
            descending(final(self)@),
            final(other)@ == Seq::<T>::empty(),
            final(other).rows() == 0,
    {
        other.height = 0;
        self.append_vec(&mut other.data);
    }

    /// Moves all the elements of `other` into `self`, leaving `other` empty.
    pub fn append_vec(&mut self, other: &mut Vec<T>)
        requires
            total_order::<T>(),
            old(self)@.len() + old(other)@.len() <= usize::MAX,
        ensures
            final(self).wf(),
            final(self)@.len() == old(self)@.len() + old(other)@.len(),
            final(self)@.to_multiset() == old(self)@.to_multiset().add(old(other)@.to_multiset()),
            descending(final(self)@),
            final(other)@ == Seq::<T>::empty(),
    {
        proof {
            vstd::seq_lib::lemma_multiset_commutative(self.data@, other@);
        }
        self.data.append(other);
        sort_descending(&mut self.data);
        self.height = height_for(self.data.len());
        proof {
            lemma_descending_beap(self.data@);
        }
    }
}

impl<T: Ord> Beap<T> {
    /// Extend Beap with elements from the iterator: each is pushed, in the
    /// order in which the iterator gives them.
    pub fn extend<I: Iterator<Item = T>>(&mut self, iter: I)
        requires
            total_order::<T>(),
            old(self).wf(),
            iter.obeys_prophetic_iter_laws(),
            iter.decrease() is Some,
            old(self)@.len() + iter.remaining().len() <= usize::MAX,
        ensures
            final(self).wf(),
            final(self)@ == pushed_all(old(self)@, iter.remaining()),
            final(self)@.len() == old(self)@.len() + iter.remaining().len(),
            final(self)@.to_multiset() == old(self)@.to_multiset().add(
                iter.remaining().to_multiset(),
            ),
    {
        let mut iter = iter;
        let ghost all = iter.remaining();
        let ghost mut done = Seq::<T>::empty();
        proof {
            assert(done + all =~= all);
            done.to_multiset_ensures();
            vstd::multiset::lemma_multiset_empty_len(done.to_multiset());
            assert(old(self)@.to_multiset().add(done.to_multiset()) =~= old(self)@.to_multiset());
        }
        loop
            invariant
                total_order::<T>(),
                self.wf(),
                iter.obeys_prophetic_iter_laws(),
                iter.decrease() is Some,
                all == done + iter.remaining(),
                self@.len() == old(self)@.len() + done.len(),
                old(self)@.len() + all.len() <= usize::MAX,
                self@.to_multiset() == old(self)@.to_multiset().add(done.to_multiset()),
                pushed_all(self@, iter.remaining()) == pushed_all(old(self)@, all),
            ensures
                self.wf(),
                self@ == pushed_all(old(self)@, all),
                self@.len() == old(self)@.len() + all.len(),
                self@.to_multiset() == old(self)@.to_multiset().add(all.to_multiset()),
            decreases iter.decrease()->0,
        {
            let ghost rest = iter.remaining();
            let ghost now = self@;
            match iter.next() {
                Some(x) => {
                    proof {
                        assert(pushed_all(now, rest) == pushed_all(
                            pushed(now, x),
                            rest.drop_first(),
                        ));
                        vstd::seq_lib::to_multiset_build(done, x);
                        assert(done.push(x) + rest.drop_first() =~= done + rest);
                        assert(old(self)@.to_multiset().add(done.to_multiset()).insert(x)
                            =~= old(self)@.to_multiset().add(done.push(x).to_multiset()));
                        done = done.push(x);
                    }
                    self.push(x);
                },
                None => {
                    proof {
                        assert(done + rest =~= done);
                    }
                    break ;
                },
            }
        }
    }
}

impl<T: Ord> Beap<T> {
    /// Building Beap from iterator.
    pub fn from_iter<I: Iterator<Item = T>>(iter: I) -> (r: Beap<T>)
        requires
            total_order::<T>(),
            iter.obeys_prophetic_iter_laws(),
            iter.decrease() is Some,
        ensures
            r.wf(),
            r@.len() == iter.remaining().len(),
            r@.to_multiset() == iter.remaining().to_multiset(),
            descending(r@),
    {
        let mut iter = iter;
        let ghost all = iter.remaining();
        let mut items: Vec<T> = Vec::new();
        loop
            invariant
                iter.obeys_prophetic_iter_laws(),
                iter.decrease() is Some,
                all == items@ + iter.remaining(),
            ensures
                items@ == all,
            decreases iter.decrease()->0,
        {
            let ghost rest = iter.remaining();
            let ghost done = items@;
            match iter.next() {
                Some(x) => {
                    proof {
                        assert(done.push(x) + rest.drop_first() =~= done + rest);
                    }
                    items.push(x);
                },
                None => {
                    proof {
                        assert(done + rest =~= done);
                    }
                    break ;
                },
            }
        }
        Beap::from(items)
    }
}

impl<T: Clone> Clone for Beap<T> {
    /// A beap of as many blocks that holds a clone of each element, in the
    /// same order.
    fn clone(&self) -> (r: Self)
        ensures
            r.rows() == self.rows(),
            r@.len() == self@.len(),
            forall|i: int| 0 <= i < self@.len() ==> cloned::<T>(#[trigger] self@[i], r@[i]),
    {
        Beap { data: self.data.clone(), height: self.height }
    }
}

impl<T> Default for Beap<T> {
    fn default() -> (r: Self)
        ensures
            r@ == Seq::<T>::empty(),
            r.rows() == 0,
    {
        Self::new()
    }
}

} // verus!
