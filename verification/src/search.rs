//! Finding a value in a beap.
//!
//! Read as a matrix whose first row holds the last slot of every block, a beap
//! has rows and columns that never increase away from its first element. The
//! search walks from the far end of the first row towards the first slot of
//! the last block, and leaves behind only slots that cannot hold the value.
use crate::layout::{
    block_of, block_start, first_slot, in_block, lemma_block_first, lemma_block_monotone,
    lemma_block_of, lemma_block_step, lemma_slot_apart, slot,
};
use crate::order::{
    is_gt, is_lt, is_same, le, lemma_flip, lemma_reflexive, lemma_transitive, lt, same,
    total_order,
};
use crate::shape::{fits_below, is_beap};
use crate::Beap;
use vstd::prelude::*;

verus! {

/// The slot at offset `p` of block `b` holds an element that compares equal to
/// `val`.
pub open spec fn hit<T: Ord>(s: Seq<T>, val: T, b: int, p: int) -> bool {
    &&& in_block(b, p)
    &&& slot(b, p) < s.len()
    &&& same(s[slot(b, p)], val)
}

/// Every slot that holds an element equal to `val` lies, seen from the slot at
/// offset `p` of block `b`, in the same column or one before it and in the
/// same row or one after it.
pub open spec fn narrowed<T: Ord>(s: Seq<T>, val: T, b: int, p: int) -> bool {
    forall|c: int, r: int| #[trigger] hit(s, val, c, r) ==> r <= p && c - r >= b - p
}

/// Some element of `s` compares equal to `val`.
pub open spec fn holds<T: Ord>(s: Seq<T>, val: T) -> bool {
    exists|i: int| 0 <= i < s.len() && same(#[trigger] s[i], val)
}

/// Down a column of a beap the elements do not increase.
pub proof fn lemma_column<T: Ord>(s: Seq<T>, b: int, p: int, c: int)
    requires
        total_order::<T>(),
        is_beap(s),
        in_block(b, p),
        b <= c,
        slot(c, p) < s.len(),
    ensures
        le(s[slot(c, p)], s[slot(b, p)]),
    decreases c - b,
{
    lemma_block_monotone(0, b);
    if c == b {
        lemma_reflexive(s[slot(b, p)]);
    } else {
        lemma_block_step(c - 1);
        lemma_block_monotone(b, c - 1);
        assert(fits_below(s, c - 1, p));
        lemma_column(s, b, p, c - 1);
        lemma_transitive(s[slot(c, p)], s[slot(c - 1, p)], s[slot(b, p)]);
    }
}

/// Back along a row of a beap the elements do not decrease.
pub proof fn lemma_row<T: Ord>(s: Seq<T>, b: int, p: int, j: int)
    requires
        total_order::<T>(),
        is_beap(s),
        in_block(b, p),
        slot(b, p) < s.len(),
        0 <= j <= p,
    ensures
        le(s[slot(b, p)], s[slot(b - j, p - j)]),
    decreases j,
{
    lemma_block_monotone(0, b);
    if j == 0 {
        lemma_reflexive(s[slot(b, p)]);
    } else {
        lemma_block_step(b - j);
        lemma_block_monotone(0, b - j);
        lemma_block_monotone(b - j + 1, b);
        assert(fits_below(s, b - j, p - j));
        lemma_row(s, b, p, j - 1);
        lemma_transitive(s[slot(b, p)], s[slot(b - j + 1, p - j + 1)], s[slot(b - j, p - j)]);
    }
}

/// Where no slot is left that could hold `val`, no element equals it.
pub proof fn lemma_nothing_left<T: Ord>(s: Seq<T>, val: T)
    requires
        forall|c: int, r: int| !#[trigger] hit(s, val, c, r),
    ensures
        !holds(s, val),
{
    if holds(s, val) {
        let i = choose|i: int| 0 <= i < s.len() && same(#[trigger] s[i], val);
        lemma_block_of(i);
        assert(hit(s, val, block_of(i), i - block_start(block_of(i))));
    }
}

/// The searched value comes after the element at hand: nothing in its column
/// from here on can equal it.
pub proof fn lemma_go_left<T: Ord>(s: Seq<T>, val: T, b: int, p: int)
    requires
        total_order::<T>(),
        is_beap(s),
        in_block(b, p),
        slot(b, p) < s.len(),
        narrowed(s, val, b, p),
        lt(s[slot(b, p)], val),
    ensures
        narrowed(s, val, b - 1, p - 1),
{
    assert forall|c: int, r: int| #[trigger] hit(s, val, c, r) implies r <= p - 1 && c - r >= b
        - p by {
        if r == p {
            lemma_column(s, b, p, c);
            lemma_transitive(s[slot(c, r)], s[slot(b, p)], val);
            lemma_flip(s[slot(c, r)], val);
        }
    }
}

/// The searched value comes before the element at hand: nothing in its row up
/// to here can equal it.
pub proof fn lemma_go_down<T: Ord>(s: Seq<T>, val: T, b: int, p: int)
    requires
        total_order::<T>(),
        is_beap(s),
        in_block(b, p),
        slot(b, p) < s.len(),
        narrowed(s, val, b, p),
        lt(val, s[slot(b, p)]),
    ensures
        narrowed(s, val, b + 1, p),
{
    assert forall|c: int, r: int| #[trigger] hit(s, val, c, r) implies r <= p && c - r >= b + 1
        - p by {
        if c - r == b - p {
            lemma_row(s, b, p, p - r);
            lemma_transitive(val, s[slot(b, p)], s[slot(c, r)]);
            lemma_flip(val, s[slot(c, r)]);
            lemma_flip(s[slot(c, r)], val);
        }
    }
}

/// As `lemma_go_down`, where the column ends at the element at hand.
pub proof fn lemma_go_aside<T: Ord>(s: Seq<T>, val: T, b: int, p: int)
    requires
        total_order::<T>(),
        is_beap(s),
        in_block(b, p),
        slot(b, p) < s.len(),
        narrowed(s, val, b, p),
        lt(val, s[slot(b, p)]),
        s.len() <= slot(b + 1, p),
    ensures
        narrowed(s, val, b, p - 1),
{
    lemma_go_down(s, val, b, p);
    assert forall|c: int, r: int| #[trigger] hit(s, val, c, r) implies r <= p - 1 && c - r >= b
        - (p - 1) by {
        if r == p {
            lemma_block_monotone(b + 1, c);
        }
    }
}

/// In the first column, with the searched value after the element at hand,
/// nothing is left.
pub proof fn lemma_dead_end<T: Ord>(s: Seq<T>, val: T, b: int)
    requires
        total_order::<T>(),
        is_beap(s),
        in_block(b, 0),
        slot(b, 0) < s.len(),
        narrowed(s, val, b, 0),
        lt(s[slot(b, 0)], val),
    ensures
        !holds(s, val),
{
    lemma_go_left(s, val, b, 0);
    assert forall|c: int, r: int| !#[trigger] hit(s, val, c, r) by {}
    lemma_nothing_left(s, val);
}

impl<T: Ord> Beap<T> {
    /// Find the index of an element with given value or return `None` if such
    /// element does not exist.
    ///
    /// The search starts at the last slot of the last full block. Where the
    /// searched value comes after the element at hand it moves to the block
    /// before, one offset back; where it comes before, to the block after at
    /// the same offset, or, where that slot is empty, one slot back.
    pub fn index(&self, val: &T) -> (r: Option<usize>)
        requires
            total_order::<T>(),
            self.wf(),
        ensures
            r matches Some(i) ==> i < self@.len() && same(self@[i as int], *val),
            r is None ==> !holds(self@, *val),
    {
        if self.height == 0 {
            return None;  // Beap is empty.
        }
        let ghost s = self.data@;
        let len = self.data.len();
        proof {
            lemma_block_first();
            lemma_block_step(self.height as int);
            lemma_block_step(self.height - 1);
            lemma_block_monotone(0, self.height as int);
        }
        let left_low = first_slot(self.height);
        let mut block = self.height;
        let mut pos;
        if len - left_low < block {
            block -= 1;
            pos = left_low - 1;
        } else {
            pos = len - 1;
        }
        proof {
            assert forall|c: int, r: int| #[trigger] hit(s, *val, c, r) implies r <= pos
                - block_start(block as int) && c - r >= block - (pos - block_start(
                block as int,
            )) by {
                if c > self.height {
                    lemma_block_monotone(self.height + 1, c);
                }
            }
        }

        while pos != left_low
            invariant
                total_order::<T>(),
                self.wf(),
                s == self.data@,
                len == s.len(),
                left_low == block_start(self.height as int),
                1 <= block <= self.height,
                in_block(block as int, pos - block_start(block as int)),
                pos < len,
                narrowed(s, *val, block as int, pos - block_start(block as int)),
            decreases 2 * (pos - block_start(block as int)) + self.height - block,
        {
            if is_same(&self.data[pos], val) {
                return Some(pos);
            }
            proof {
                lemma_block_step(block as int);
                lemma_block_step(block - 1);
                lemma_block_step(block + 1);
                lemma_block_monotone(0, block - 1);
                lemma_block_monotone(block as int, self.height as int);
                lemma_flip(s[pos as int], *val);
                lemma_flip(*val, s[pos as int]);
            }
            let start = first_slot(block);
            let block_pos = pos - start;

            if block > 1 && block_pos > 0 && is_gt(val, &self.data[pos]) {
                // Case 1: go to the left
                proof {
                    lemma_go_left(s, *val, block as int, block_pos as int);
                }
                let prev_start = first_slot(block - 1);
                pos = prev_start + block_pos - 1;
                block -= 1;
            } else if is_lt(val, &self.data[pos]) && block < self.height {
                proof {
                    lemma_block_monotone(block + 1, self.height as int);
                }
                let next_start = first_slot(block + 1);
                if block_pos >= len - next_start {
                    proof {
                        lemma_go_aside(s, *val, block as int, block_pos as int);
                    }
                    pos -= 1;  // Case 3: Go left and down (diagonally).
                } else {
                    // Case 2: Go down.
                    proof {
                        lemma_go_down(s, *val, block as int, block_pos as int);
                    }
                    pos = next_start + block_pos;
                    block += 1;
                }
            } else if block_pos > 0 {
                proof {
                    lemma_go_aside(s, *val, block as int, block_pos as int);
                }
                pos -= 1;  // Case 3: Go left and down (diagonally).
            } else {
                proof {
                    if lt(*val, s[pos as int]) {
                        lemma_slot_apart(block as int, 0, self.height as int, 0);
                    }
                    lemma_dead_end(s, *val, block as int);
                }
                return None;  // Element not found.
            }
        }

        proof {
            lemma_slot_apart(
                block as int,
                pos - block_start(block as int),
                self.height as int,
                0,
            );
            lemma_flip(*val, s[left_low as int]);
        }
        if is_same(val, &self.data[left_low]) {
            Some(left_low)
        } else {
            proof {
                assert forall|c: int, r: int| !#[trigger] hit(s, *val, c, r) by {
                    if hit(s, *val, c, r) {
                        lemma_block_monotone(self.height + 1, c);
                        lemma_slot_apart(c, r, self.height as int, 0);
                    }
                }
                lemma_nothing_left(s, *val);
            }
            None
        }
    }
}

} // verus!
