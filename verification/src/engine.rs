//! Beap logic.
use crate::layout::{
    block_of, block_start, first_slot, in_block, lemma_block_first, lemma_block_monotone,
    lemma_block_of, lemma_block_of_slot, lemma_block_step, locate,
};
use crate::order::{
    is_ge, is_gt, is_lt, le, lemma_flip, lemma_reflexive, lemma_transitive, lt, same, total_order,
};
use crate::search::holds;
use crate::shape::{
    fits_above, fits_below, is_beap, is_beap_around, is_beap_but, is_tail, lemma_fill_slot,
    lemma_prefix_beap, lemma_prefix_but, lemma_push_around, lemma_root_around,
    lemma_root_greatest, lemma_swapped_multiset, lemma_tail_least, lemma_update_around,
    lemma_update_but, swapped,
};
use crate::sift::{
    greater_child, lemma_first_slot, lemma_repaired_beap, lemma_rows_of, lemma_sifted_down_beap,
    lemma_sifted_down_fits, lemma_sifted_down_frame, lemma_sifted_up_around, lemma_sifted_up_beap,
    lemma_sifted_up_fits, lemma_sifted_up_frame, lower_parent, pushed, pushpopped, repaired,
    sifted_down, sifted_up, taken,
};
use crate::Beap;
use vstd::prelude::*;
use vstd::seq_lib::{to_multiset_build, to_multiset_remove, to_multiset_update};

verus! {

/// Exchanges the elements at `i` and `j`.
pub(crate) fn exchange<T>(v: &mut Vec<T>, i: usize, j: usize)
    requires
        i < j < old(v)@.len(),
    ensures
        final(v)@ == swapped(old(v)@, j as int, i as int),
        final(v)@.len() == old(v)@.len(),
        final(v)@.to_multiset() == old(v)@.to_multiset(),
{
    let (left, right) = v.as_mut_slice().split_at_mut(j);
    core::mem::swap(&mut left[i], &mut right[0]);
    proof {
        lemma_swapped_multiset(old(v)@, j as int, i as int);
        assert(v@ =~= swapped(old(v)@, j as int, i as int));
    }
}

impl<T> Beap<T> {
    /// Start and end indexes of block `b`, or `None` for block 0, which does
    /// not exist.
    pub fn span(&self, b: usize) -> (r: Option<(usize, usize)>)
        requires
            block_start(b + 1) <= usize::MAX + 1,
        ensures
            b == 0 ==> r is None,
            b > 0 ==> r == Some(
                (block_start(b as int) as usize, (block_start(b + 1) - 1) as usize),
            ),
            b > 0 ==> 0 <= block_start(b as int) <= block_start(b + 1) - 1 <= usize::MAX,
    {
        if b == 0 {
            None
        } else {
            proof {
                lemma_block_step(b as int);
                lemma_block_monotone(0, b as int);
            }
            let start = first_slot(b);
            Some((start, start + (b - 1)))
        }
    }
}

impl<T: Ord> Beap<T> {
    /// Pushes an item onto the beap: the item is put at the end and moved up
    /// to where it belongs. The beap has one block more where its last block
    /// was full.
    pub fn push(&mut self, item: T)
        requires
            total_order::<T>(),
            old(self).wf(),
            old(self)@.len() < usize::MAX,
        ensures
            final(self).wf(),
            final(self)@ == pushed(old(self)@, item),
            final(self)@.len() == old(self)@.len() + 1,
            final(self)@.to_multiset() == old(self)@.to_multiset().insert(item),
            final(self).rows() == if old(self)@.len() == block_start(old(self).rows() + 1) {
                old(self).rows() + 1
            } else {
                old(self).rows()
            },
    {
        let len = self.data.len();
        if self.height == 0 {
            proof {
                lemma_block_first();
            }
            self.height = 1;
        } else {
            proof {
                lemma_block_step(self.height as int);
                lemma_block_step(self.height + 1);
                lemma_block_monotone(0, self.height as int);
            }
            let first = first_slot(self.height);
            if len - first == self.height {
                self.height += 1;
            }
        }
        proof {
            lemma_push_around(self.data@, item, self.height as int);
            to_multiset_build(self.data@, item);
            lemma_rows_of(len + 1, self.height as int);
        }
        self.data.push(item);
        self.siftup(len, self.height);
    }

    /// Removes the greatest item from the beap and returns it, or `None` if it
    /// is empty.
    pub fn pop(&mut self) -> (r: Option<T>)
        requires
            total_order::<T>(),
            old(self).wf(),
        ensures
            final(self).wf(),
            old(self)@.len() == 0 ==> r is None && final(self)@ == old(self)@,
            old(self)@.len() > 0 ==> {
                &&& r == Some(old(self)@[0])
                &&& final(self)@ == taken(old(self)@, 0)
                &&& final(self)@.len() == old(self)@.len() - 1
                &&& final(self)@.to_multiset() == old(self)@.to_multiset().remove(old(self)@[0])
                &&& forall|i: int|
                    0 <= i < old(self)@.len() ==> le(#[trigger] old(self)@[i], old(self)@[0])
            },
    {
        let ghost s = self.data@;
        proof {
            lemma_root_greatest(s);
            lemma_first_slot();
        }
        match self.data.pop() {
            None => None,
            Some(item) => {
                let mut item = item;
                proof {
                    lemma_prefix_beap(s, s.len() - 1);
                    lemma_block_first();
                    lemma_block_step(self.height as int);
                    lemma_block_step(self.height - 1);
                    lemma_block_monotone(0, self.height as int);
                }
                if !self.data.is_empty() {
                    let len = self.data.len();
                    let start = first_slot(self.height);
                    if start == len {
                        self.height -= 1;
                    }
                    proof {
                        lemma_root_around(self.data@, item);
                        lemma_fill_slot(s, 0);
                        lemma_rows_of(len as int, self.height as int);
                    }
                    core::mem::swap(&mut item, &mut self.data[0]);
                    self.siftdown(0, 1);
                } else {
                    proof {
                        assert(s.drop_last() =~= s.remove(0));
                        to_multiset_remove(s, 0);
                    }
                    self.height = 0;
                }
                Some(item)
            },
        }
    }

    /// Effective equivalent to a sequential `push()` and `pop()` calls.
    pub fn pushpop(&mut self, item: T) -> (r: T)
        requires
            total_order::<T>(),
            old(self).wf(),
        ensures
            final(self).wf(),
            final(self)@ == pushpopped(old(self)@, item),
            final(self)@.len() == old(self)@.len(),
            old(self)@.len() > 0 && lt(item, old(self)@[0]) ==> {
                &&& r == old(self)@[0]
                &&& final(self)@.to_multiset() == old(self)@.to_multiset().insert(item).remove(r)
            },
            !(old(self)@.len() > 0 && lt(item, old(self)@[0])) ==> {
                &&& r == item
                &&& final(self)@ == old(self)@
            },
    {
        let mut item = item;
        if !self.data.is_empty() && is_gt(&self.data[0], &item) {
            proof {
                lemma_root_around(self.data@, item);
                to_multiset_update(self.data@, 0, item);
                lemma_block_first();
                lemma_rows_of(self.data@.len() as int, self.height as int);
            }
            core::mem::swap(&mut item, &mut self.data[0]);
            self.siftdown(0, 1);
        }
        item
    }

    /// Returns true if the beap contains a value.
    pub fn contains(&self, val: &T) -> (r: bool)
        requires
            total_order::<T>(),
            self.wf(),
        ensures
            r == holds(self@, *val),
    {
        self.index(val).is_some()
    }

    /// Removes a value from the beap. Returns whether the value was present in
    /// the beap.
    pub fn remove(&mut self, val: &T) -> (r: bool)
        requires
            total_order::<T>(),
            old(self).wf(),
        ensures
            final(self).wf(),
            r == holds(old(self)@, *val),
            !r ==> final(self)@ == old(self)@,
            r ==> exists|i: int|
                {
                    &&& 0 <= i < old(self)@.len()
                    &&& same(#[trigger] old(self)@[i], *val)
                    &&& final(self)@ == taken(old(self)@, i)
                    &&& final(self)@.to_multiset() == old(self)@.to_multiset().remove(
                        old(self)@[i],
                    )
                },
            r ==> final(self)@.len() == old(self)@.len() - 1,
    {
        match self.index(val) {
            Some(idx) => {
                self.remove_index(idx);
                true
            },
            None => false,
        }
    }

    /// Replaces the first found element that equals `was` with the value
    /// `new`, returns `true` if such an element was found.
    pub fn replace(&mut self, was: &T, new: T) -> (r: bool)
        requires
            total_order::<T>(),
            old(self).wf(),
        ensures
            final(self).wf(),
            final(self)@.len() == old(self)@.len(),
            r == holds(old(self)@, *was),
            !r ==> final(self)@ == old(self)@,
            r ==> exists|i: int|
                {
                    &&& 0 <= i < old(self)@.len()
                    &&& same(#[trigger] old(self)@[i], *was)
                    &&& final(self)@ == repaired(old(self)@.update(i, new), i)
                    &&& final(self)@.to_multiset() == old(self)@.to_multiset().insert(new).remove(
                        old(self)@[i],
                    )
                },
    {
        let idx = self.index(was);
        match idx {
            Some(pos) => {
                proof {
                    lemma_update_but(self.data@, pos as int, new);
                    to_multiset_update(self.data@, pos as int, new);
                }
                self.data[pos] = new;
                self.repair(pos);
                true
            },
            None => false,
        }
    }

    /// Remove an element at the specified position.
    ///
    /// If the passed index is greater than the max index of the beap, it
    /// returns `None`.
    pub fn remove_index(&mut self, pos: usize) -> (r: Option<T>)
        requires
            total_order::<T>(),
            old(self).wf(),
        ensures
            final(self).wf(),
            pos >= old(self)@.len() ==> r is None && final(self)@ == old(self)@,
            pos < old(self)@.len() ==> {
                &&& r == Some(old(self)@[pos as int])
                &&& final(self)@ == taken(old(self)@, pos as int)
                &&& final(self)@.len() == old(self)@.len() - 1
                &&& final(self)@.to_multiset() == old(self)@.to_multiset().remove(
                    old(self)@[pos as int],
                )
            },
    {
        if pos >= self.data.len() {
            return None;
        }
        proof {
            lemma_update_but(self.data@, pos as int, self.data@[pos as int]);
            assert(self.data@.update(pos as int, self.data@[pos as int]) =~= self.data@);
        }
        Some(self.take_at(pos))
    }

    /// Takes out the element at `pos`, which need not be in order with its
    /// parents and children: the last element takes its place and is moved to
    /// where it belongs.
    pub fn take_at(&mut self, pos: usize) -> (r: T)
        requires
            total_order::<T>(),
            old(self).framed(),
            pos < old(self)@.len(),
            is_beap_but(old(self)@, pos as int),
        ensures
            final(self).wf(),
            r == old(self)@[pos as int],
            final(self)@ == taken(old(self)@, pos as int),
            final(self)@.len() == old(self)@.len() - 1,
            final(self)@.to_multiset() == old(self)@.to_multiset().remove(old(self)@[pos as int]),
    {
        let ghost s = self.data@;
        let mut item = self.data.pop().unwrap();
        proof {
            lemma_prefix_but(s, pos as int);
            lemma_block_first();
            lemma_block_step(self.height as int);
            lemma_block_step(self.height - 1);
            lemma_block_monotone(0, self.height as int);
        }
        if !self.data.is_empty() {
            let len = self.data.len();
            let start = first_slot(self.height);
            if start == len {
                self.height -= 1;
            }
            if pos != len {
                proof {
                    lemma_block_of(pos as int);
                    lemma_update_around(
                        self.data@,
                        block_of(pos as int),
                        pos - block_start(block_of(pos as int)),
                        item,
                    );
                    lemma_fill_slot(s, pos as int);
                }
                core::mem::swap(&mut item, &mut self.data[pos]);
                self.repair(pos);
            } else {
                proof {
                    assert(s.drop_last() =~= s.remove(s.len() - 1));
                    to_multiset_remove(s, s.len() - 1);
                }
            }
        } else {
            proof {
                assert(s.drop_last() =~= s.remove(0));
                to_multiset_remove(s, 0);
            }
            self.height = 0;
        }
        item
    }

    /// Position of the smallest item of a beap that is not empty: the first
    /// smallest among the last slots, one for each block.
    pub fn tail_index(&self) -> (idx: usize)
        requires
            total_order::<T>(),
            self.wf(),
            self@.len() > 0,
        ensures
            is_tail(self@, self.rows(), idx as int),
    {
        let len = self.data.len();
        proof {
            lemma_block_step(self.height as int);
            lemma_block_monotone(0, self.height as int);
        }
        let mut idx = len - self.height;
        let mut i = idx + 1;
        proof {
            lemma_reflexive(self.data@[idx as int]);
        }
        while i < len
            invariant
                total_order::<T>(),
                len == self.data@.len(),
                len - self.height <= idx < i <= len,
                forall|j: int|
                    len - self.height <= j < i ==> le(
                        self.data@[idx as int],
                        #[trigger] self.data@[j],
                    ),
                forall|j: int|
                    len - self.height <= j < idx ==> lt(
                        self.data@[idx as int],
                        #[trigger] self.data@[j],
                    ),
            decreases len - i,
        {
            let ghost s = self.data@;
            if is_lt(&self.data[i], &self.data[idx]) {
                proof {
                    assert forall|j: int| len - self.height <= j < i + 1 implies le(
                        s[i as int],
                        #[trigger] s[j],
                    ) by {
                        if j < i {
                            lemma_transitive(s[i as int], s[idx as int], s[j]);
                        } else {
                            lemma_reflexive(s[i as int]);
                        }
                    }
                    assert forall|j: int| len - self.height <= j < i implies lt(
                        s[i as int],
                        #[trigger] s[j],
                    ) by {
                        lemma_transitive(s[i as int], s[idx as int], s[j]);
                    }
                }
                idx = i;
            } else {
                proof {
                    lemma_flip(s[i as int], s[idx as int]);
                }
            }
            i += 1;
        }
        proof {
            lemma_reflexive(self.data@[idx as int]);
            lemma_tail_least(self.data@, self.height as int, idx as int);
        }
        idx
    }

    /// Returns the smallest item in the beap, or `None` if it is empty.
    pub fn tail(&self) -> (r: Option<&T>)
        requires
            total_order::<T>(),
            self.wf(),
        ensures
            self@.len() == 0 ==> r is None,
            self@.len() > 0 ==> exists|i: int|
                is_tail(self@, self.rows(), i) && r == Some(&self@[i]),
    {
        if self.height == 0 {
            None
        } else {
            let idx = self.tail_index();
            Some(&self.data[idx])
        }
    }

    /// Removes the smallest item from the beap and returns it, or `None` if it
    /// is empty.
    pub fn pop_tail(&mut self) -> (r: Option<T>)
        requires
            total_order::<T>(),
            old(self).wf(),
        ensures
            final(self).wf(),
            old(self)@.len() == 0 ==> r is None && final(self)@ == old(self)@,
            old(self)@.len() > 0 ==> exists|i: int|
                {
                    &&& is_tail(old(self)@, old(self).rows(), i)
                    &&& r == Some(old(self)@[i])
                    &&& final(self)@ == taken(old(self)@, i)
                    &&& final(self)@.len() == old(self)@.len() - 1
                    &&& final(self)@.to_multiset() == old(self)@.to_multiset().remove(
                        old(self)@[i],
                    )
                },
    {
        if self.height == 0 {
            None
        } else {
            let idx = self.tail_index();
            self.remove_index(idx)
        }
    }

    /// Restore the beap property (after changing the `pos` element): the
    /// element is moved up, or else down, to where it belongs. Where it
    /// already fits nothing moves.
    pub fn repair(&mut self, pos: usize)
        requires
            total_order::<T>(),
            old(self).framed(),
            is_beap_but(old(self)@, pos as int),
        ensures
            final(self).wf(),
            final(self)@ == repaired(old(self)@, pos as int),
            is_beap(old(self)@) ==> final(self)@ == old(self)@,
            final(self)@.len() == old(self)@.len(),
            final(self)@.to_multiset() == old(self)@.to_multiset(),
    {
        proof {
            lemma_block_of(pos as int);
            lemma_block_first();
            lemma_rows_of(self.data@.len() as int, self.height as int);
            if is_beap(self.data@) {
                lemma_repaired_beap(self.data@, pos as int);
            }
        }
        if pos == 0 {
            proof {
                lemma_block_of_slot(1, 0);
            }
            self.siftdown(pos, 1);
        } else {
            proof {
                lemma_block_monotone(0, self.height as int);
                assert(self.data.len() == self.data@.len());
            }
            let b = locate(pos, self.height);
            self.siftup(pos, b);
            self.siftdown(pos, b);
        }
    }

    /// Changing the current element with its least priority parent until the
    /// beap property is restored. An element that does not come after its
    /// parents stays, and so does, in any case, every element behind `pos`.
    pub(crate) fn siftup(&mut self, pos: usize, block: usize)
        requires
            total_order::<T>(),
            is_beap_around(old(self)@, block as int, pos - block_start(block as int)),
        ensures
            final(self)@ == sifted_up(old(self)@, block as int, pos - block_start(block as int)),
            fits_above(old(self)@, block as int, pos - block_start(block as int)) ==> final(self)@
                == old(self)@,
            forall|i: int| pos < i < old(self)@.len() ==> #[trigger] final(self)@[i] == old(self)@[i],
            final(self).rows() == old(self).rows(),
            final(self)@.len() == old(self)@.len(),
            final(self)@.to_multiset() == old(self)@.to_multiset(),
            final(self)@ == old(self)@ || is_beap(final(self)@),
            is_beap_around(final(self)@, block as int, pos - block_start(block as int)),
            fits_above(final(self)@, block as int, pos - block_start(block as int)),
            fits_below(old(self)@, block as int, pos - block_start(block as int)) ==> is_beap(
                final(self)@,
            ),
    {
        let ghost before = self.data@;
        let ghost home = block as int;
        let ghost offset = pos - block_start(block as int);
        let mut pos = pos;
        let mut block = block;
        let mut start = first_slot(block);

        while block > 1
            invariant
                total_order::<T>(),
                self.height == old(self).height,
                self.data@.len() == before.len(),
                start == block_start(block as int),
                in_block(block as int, pos - start),
                pos < self.data@.len(),
                sifted_up(self.data@, block as int, pos - start) == sifted_up(before, home, offset),
            ensures
                self.height == old(self).height,
                self.data@ == sifted_up(before, home, offset),
            decreases block,
        {
            // Position of the element in the block.
            let pos_in_block = pos - start;

            proof {
                lemma_block_step(block - 1);
                lemma_block_step(block - 2);
                lemma_block_monotone(0, block - 1);
            }
            // The first and last index of the elements of the previous block.
            let (prev_start, prev_end) = self.span(block - 1).unwrap();

            let parent;
            if pos_in_block > 0 {
                let left_parent = prev_start + pos_in_block - 1;
                let right_parent = prev_start + pos_in_block;

                if pos_in_block == block - 1 {
                    parent = prev_end;  // The `pos` element does not have a right parent.
                } else if is_lt(&self.data[right_parent], &self.data[left_parent]) {
                    // The priority of the right parent is less than the left one
                    parent = right_parent;
                } else {
                    parent = left_parent;
                }
            } else {
                parent = prev_start;  // The `pos` element does not have a left parent.
            }
            assert(parent - prev_start == lower_parent(
                self.data@,
                block as int,
                pos_in_block as int,
            ));

            if is_ge(&self.data[parent], &self.data[pos]) {
                break;  // The beap property is met.
            }
            exchange(&mut self.data, parent, pos);
            pos = parent;
            start = prev_start;
            block -= 1;
        }
        proof {
            lemma_sifted_up_around(before, home, offset);
            lemma_sifted_up_frame(before, home, offset);
            if fits_above(before, home, offset) {
                lemma_sifted_up_fits(before, home, offset);
            }
            if fits_below(before, home, offset) {
                lemma_sifted_up_beap(before, home, offset);
            }
        }
    }

    /// Sift down in time O(sqrt(2N)).
    /// Swap the element with its largest child until the heap property is
    /// restored. An element that does not come before its children stays, and
    /// so does, in any case, every element before `pos`.
    pub(crate) fn siftdown(&mut self, pos: usize, block: usize)
        requires
            total_order::<T>(),
            old(self).framed(),
            is_beap_around(old(self)@, block as int, pos - block_start(block as int)),
            fits_above(old(self)@, block as int, pos - block_start(block as int)),
        ensures
            final(self)@ == sifted_down(
                old(self)@,
                old(self).rows(),
                block as int,
                pos - block_start(block as int),
            ),
            fits_below(old(self)@, block as int, pos - block_start(block as int)) ==> final(self)@
                == old(self)@,
            forall|i: int| 0 <= i < pos ==> #[trigger] final(self)@[i] == old(self)@[i],
            final(self).rows() == old(self).rows(),
            final(self)@.len() == old(self)@.len(),
            final(self)@.to_multiset() == old(self)@.to_multiset(),
            is_beap(final(self)@),
    {
        let ghost before = self.data@;
        let ghost home = block as int;
        let ghost offset = pos - block_start(block as int);
        let mut pos = pos;
        let mut block = block;
        proof {
            lemma_block_monotone(0, block as int);
            if block > self.height {
                lemma_block_monotone(self.height + 1, block as int);
            }
        }
        let mut start = first_slot(block);

        while block < self.height
            invariant
                total_order::<T>(),
                self.height == old(self).height,
                self.framed(),
                block <= self.height,
                self.data@.len() == before.len(),
                start == block_start(block as int),
                in_block(block as int, pos - start),
                pos < self.data@.len(),
                sifted_down(self.data@, self.height as int, block as int, pos - start)
                    == sifted_down(before, self.height as int, home, offset),
            ensures
                self.height == old(self).height,
                self.data@ == sifted_down(before, self.height as int, home, offset),
            decreases self.height - block,
        {
            proof {
                lemma_block_step(block as int);
                lemma_block_step(block + 1);
                lemma_block_monotone(block + 1, self.height as int);
            }
            let len = self.data.len();
            let next_start = first_slot(block + 1);
            let level_pos = pos - start;

            // We will find the highest priority descendant.
            if level_pos >= len - next_start {
                break;  // The `pos` element has no descendants.
            }
            let mut child = next_start + level_pos;

            if child + 1 < self.data.len() && is_gt(&self.data[child + 1], &self.data[child]) {
                child += 1;
            }
            assert(child - next_start == greater_child(
                self.data@,
                block as int,
                level_pos as int,
            ));

            if is_ge(&self.data[pos], &self.data[child]) {
                break;  // The beap property is met.
            }
            exchange(&mut self.data, pos, child);
            block += 1;
            start = next_start;
            pos = child;
        }
        proof {
            lemma_sifted_down_beap(before, self.height as int, home, offset);
            lemma_sifted_down_frame(before, self.height as int, home, offset);
            if fits_below(before, home, offset) {
                lemma_sifted_down_fits(before, self.height as int, home, offset);
            }
        }
    }
}

} // verus!
