//! Handles on one element of a beap.
//!
//! A handle borrows the beap and lets the caller change one element in place.
//! It records that the element was handed out for writing, and `release`
//! then moves the element to where it belongs. A handle that is dropped
//! without `release` leaves the beap as the handle last held it, in order
//! everywhere but around that element.
use crate::layout::{block_of, block_start, lemma_block_of};
use crate::order::total_order;
use crate::shape::{is_beap, is_beap_but, is_tail, lemma_update_around, lemma_update_but};
use crate::sift::{repaired, taken};
use crate::Beap;
use vstd::prelude::*;

verus! {

/// Structure wrapping a mutable reference to the greatest item on a `Beap`.
pub struct PeekMut<'a, T: 'a + Ord> {
    pub beap: &'a mut Beap<T>,
    pub sift: bool,
}

/// Structure wrapping a mutable reference to the smallest item on a `Beap`.
pub struct TailMut<'a, T: 'a + Ord> {
    pub beap: &'a mut Beap<T>,
    pub sift: bool,
    pub pos: usize,
}

/// Structure wrapping a mutable reference to the item with provided index on a
/// `Beap`.
pub struct PosMut<'a, T: 'a + Ord> {
    pub beap: &'a mut Beap<T>,
    pub sift: bool,
    pub pos: usize,
}

/// What a handle on the element at `pos` keeps of its beap: the element is
/// there, and where it was not handed out for writing the beap is well
/// formed, else in order but around it.
pub open spec fn held<T: Ord>(beap: Beap<T>, sift: bool, pos: int) -> bool {
    &&& beap.framed()
    &&& 0 <= pos < beap@.len()
    &&& if sift {
        is_beap_but(beap@, pos)
    } else {
        is_beap(beap@)
    }
}

impl<T: Ord> Beap<T> {
    /// Returns a mutable reference to the greatest item in the beap, or
    /// `None` if it is empty.
    pub fn peek_mut(&mut self) -> (r: Option<PeekMut<'_, T>>)
        requires
            old(self).wf(),
        ensures
            match r {
                None => old(self)@.len() == 0 && *final(self) == *old(self),
                Some(g) => {
                    &&& old(self)@.len() > 0
                    &&& *g.beap == *old(self)
                    &&& !g.sift
                    &&& *final(g.beap) == *final(self)
                },
            },
    {
        if self.is_empty() {
            None
        } else {
            Some(PeekMut { beap: self, sift: false })
        }
    }

    /// Returns a mutable reference to the smallest item in the beap, or
    /// `None` if it is empty.
    pub fn tail_mut(&mut self) -> (r: Option<TailMut<'_, T>>)
        requires
            total_order::<T>(),
            old(self).wf(),
        ensures
            match r {
                None => old(self)@.len() == 0 && *final(self) == *old(self),
                Some(g) => {
                    &&& old(self)@.len() > 0
                    &&& *g.beap == *old(self)
                    &&& !g.sift
                    &&& is_tail(old(self)@, old(self).rows(), g.pos as int)
                    &&& *final(g.beap) == *final(self)
                },
            },
    {
        if self.is_empty() {
            None
        } else {
            let idx = self.tail_index();
            Some(TailMut { beap: self, sift: false, pos: idx })
        }
    }

    /// Returns a mutable reference to the item with given position, or
    /// `None` if the position is out of bounds.
    pub fn get_mut(&mut self, pos: usize) -> (r: Option<PosMut<'_, T>>)
        requires
            old(self).wf(),
        ensures
            match r {
                None => pos >= old(self)@.len() && *final(self) == *old(self),
                Some(g) => {
                    &&& pos < old(self)@.len()
                    &&& *g.beap == *old(self)
                    &&& !g.sift
                    &&& g.pos == pos
                    &&& *final(g.beap) == *final(self)
                },
            },
    {
        if pos < self.len() {
            Some(PosMut { beap: self, sift: false, pos })
        } else {
            None
        }
    }
}

impl<'a, T: Ord> PeekMut<'a, T> {
    /// The greatest item.
    pub fn get(&self) -> (r: &T)
        requires
            held(*self.beap, self.sift, 0),
        ensures
            *r == old(self.beap)@[0],
    {
        &self.beap.data[0]
    }

    /// The greatest item, to be changed in place. The handle remembers that
    /// the item may have been changed.
    pub fn get_mut(&mut self) -> (r: &mut T)
        requires
            total_order::<T>(),
            held(*old(self).beap, old(self).sift, 0),
        ensures
            *r == old(self).beap@[0],
            final(self).sift,
            final(self).beap@ == old(self).beap@.update(0, *final(r)),
            final(self).beap.rows() == old(self).beap.rows(),
            held(*final(self).beap, true, 0),
            *final(final(self).beap) == *final(old(self).beap),
    {
        self.sift = true;
        let r = &mut self.beap.data[0];
        proof {
            lemma_touched(old(self).beap@, old(self).sift, 0, *final(r));
        }
        r
    }

    /// Gives the beap back. Where the item was handed out for writing, it is
    /// moved to where it belongs; where it was not, nothing changes.
    pub fn release(self)
        requires
            total_order::<T>(),
            held(*old(self.beap), self.sift, 0),
        ensures
            final(self.beap).wf(),
            final(self.beap)@.len() == old(self.beap)@.len(),
            final(self.beap)@.to_multiset() == old(self.beap)@.to_multiset(),
            !self.sift ==> *final(self.beap) == *old(self.beap),
            self.sift ==> final(self.beap)@ == repaired(old(self.beap)@, 0),
    {
        if self.sift {
            self.beap.repair(0);
        }
    }

    /// Removes the peeked value from the heap and returns it.
    pub fn pop(this: PeekMut<'a, T>) -> (r: T)
        requires
            total_order::<T>(),
            held(*old(this.beap), this.sift, 0),
        ensures
            r == old(this.beap)@[0],
            final(this.beap).wf(),
            final(this.beap)@ == taken(old(this.beap)@, 0),
            final(this.beap)@.len() == old(this.beap)@.len() - 1,
            final(this.beap)@.to_multiset() == old(this.beap)@.to_multiset().remove(r),
    {
        proof {
            let i: int = 0;
            lemma_touched(this.beap@, this.sift, i, this.beap@[i]);
            assert(this.beap@.update(i, this.beap@[i]) =~= this.beap@);
        }
        this.beap.take_at(0)
    }
}

impl<'a, T: Ord> TailMut<'a, T> {
    /// The smallest item.
    pub fn get(&self) -> (r: &T)
        requires
            held(*self.beap, self.sift, self.pos as int),
        ensures
            *r == old(self.beap)@[self.pos as int],
    {
        &self.beap.data[self.pos]
    }

    /// The smallest item, to be changed in place. The handle remembers that
    /// the item may have been changed.
    pub fn get_mut(&mut self) -> (r: &mut T)
        requires
            total_order::<T>(),
            held(*old(self).beap, old(self).sift, old(self).pos as int),
        ensures
            *r == old(self).beap@[old(self).pos as int],
            final(self).sift,
            final(self).pos == old(self).pos,
            final(self).beap@ == old(self).beap@.update(old(self).pos as int, *final(r)),
            final(self).beap.rows() == old(self).beap.rows(),
            held(*final(self).beap, true, old(self).pos as int),
            *final(final(self).beap) == *final(old(self).beap),
    {
        self.sift = true;
        let r = &mut self.beap.data[self.pos];
        proof {
            lemma_touched(old(self).beap@, old(self).sift, old(self).pos as int, *final(r));
        }
        r
    }

    /// Gives the beap back. Where the item was handed out for writing, it is
    /// moved to where it belongs; where it was not, nothing changes.
    pub fn release(self)
        requires
            total_order::<T>(),
            held(*old(self.beap), self.sift, self.pos as int),
        ensures
            final(self.beap).wf(),
            final(self.beap)@.len() == old(self.beap)@.len(),
            final(self.beap)@.to_multiset() == old(self.beap)@.to_multiset(),
            !self.sift ==> *final(self.beap) == *old(self.beap),
            self.sift ==> final(self.beap)@ == repaired(old(self.beap)@, self.pos as int),
    {
        if self.sift {
            self.beap.repair(self.pos);
        }
    }

    /// Removes the peeked value from the beap and returns it.
    pub fn pop(this: TailMut<'a, T>) -> (r: T)
        requires
            total_order::<T>(),
            held(*old(this.beap), this.sift, this.pos as int),
        ensures
            r == old(this.beap)@[this.pos as int],
            final(this.beap).wf(),
            final(this.beap)@ == taken(old(this.beap)@, this.pos as int),
            final(this.beap)@.len() == old(this.beap)@.len() - 1,
            final(this.beap)@.to_multiset() == old(this.beap)@.to_multiset().remove(r),
    {
        proof {
            let i: int = this.pos as int;
            lemma_touched(this.beap@, this.sift, i, this.beap@[i]);
            assert(this.beap@.update(i, this.beap@[i]) =~= this.beap@);
        }
        this.beap.take_at(this.pos)
    }
}

impl<'a, T: Ord> PosMut<'a, T> {
    /// The item at the position of the handle.
    pub fn get(&self) -> (r: &T)
        requires
            held(*self.beap, self.sift, self.pos as int),
        ensures
            *r == old(self.beap)@[self.pos as int],
    {
        &self.beap.data[self.pos]
    }

    /// The item at the position of the handle, to be changed in place. The handle remembers that
    /// the item may have been changed.
    pub fn get_mut(&mut self) -> (r: &mut T)
        requires
            total_order::<T>(),
            held(*old(self).beap, old(self).sift, old(self).pos as int),
        ensures
            *r == old(self).beap@[old(self).pos as int],
            final(self).sift,
            final(self).pos == old(self).pos,
            final(self).beap@ == old(self).beap@.update(old(self).pos as int, *final(r)),
            final(self).beap.rows() == old(self).beap.rows(),
            held(*final(self).beap, true, old(self).pos as int),
            *final(final(self).beap) == *final(old(self).beap),
    {
        self.sift = true;
        let r = &mut self.beap.data[self.pos];
        proof {
            lemma_touched(old(self).beap@, old(self).sift, old(self).pos as int, *final(r));
        }
        r
    }

    /// Gives the beap back. Where the item was handed out for writing, it is
    /// moved to where it belongs; where it was not, nothing changes.
    pub fn release(self)
        requires
            total_order::<T>(),
            held(*old(self.beap), self.sift, self.pos as int),
        ensures
            final(self.beap).wf(),
            final(self.beap)@.len() == old(self.beap)@.len(),
            final(self.beap)@.to_multiset() == old(self.beap)@.to_multiset(),
            !self.sift ==> *final(self.beap) == *old(self.beap),
            self.sift ==> final(self.beap)@ == repaired(old(self.beap)@, self.pos as int),
    {
        if self.sift {
            self.beap.repair(self.pos);
        }
    }

    /// Removes the borrowed value from the beap and returns it.
    pub fn remove(this: PosMut<'a, T>) -> (r: T)
        requires
            total_order::<T>(),
            held(*old(this.beap), this.sift, this.pos as int),
        ensures
            r == old(this.beap)@[this.pos as int],
            final(this.beap).wf(),
            final(this.beap)@ == taken(old(this.beap)@, this.pos as int),
            final(this.beap)@.len() == old(this.beap)@.len() - 1,
            final(this.beap)@.to_multiset() == old(this.beap)@.to_multiset().remove(r),
    {
        proof {
            let i: int = this.pos as int;
            lemma_touched(this.beap@, this.sift, i, this.beap@[i]);
            assert(this.beap@.update(i, this.beap@[i]) =~= this.beap@);
        }
        this.beap.take_at(this.pos)
    }
}

/// A beap, or a sequence in order but around one slot, in which the element
/// of that slot is replaced is in order but around that slot.
pub proof fn lemma_touched<T: Ord>(s: Seq<T>, sift: bool, pos: int, item: T)
    requires
        total_order::<T>(),
        0 <= pos < s.len(),
        if sift {
            is_beap_but(s, pos)
        } else {
            is_beap(s)
        },
    ensures
        is_beap_but(s.update(pos, item), pos),
{
    if sift {
        lemma_block_of(pos);
        lemma_update_around(s, block_of(pos), pos - block_start(block_of(pos)), item);
    } else {
        lemma_update_but(s, pos, item);
    }
}

} // verus!
