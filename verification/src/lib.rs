//! A priority queue implemented with a bi-parental heap.
//!
//! A beap keeps its elements in one flat sequence, read as the rows of a
//! triangular matrix in which every element has up to two parents and two
//! children. The greatest element is at the front; inserting an element,
//! removing the greatest or the smallest, and finding or removing an arbitrary
//! one take a number of steps in the order of the square root of the length.
use crate::layout::height_fits;
use crate::shape::is_beap;
use vstd::prelude::*;

pub use crate::handle::{PeekMut, PosMut, TailMut};
pub use crate::iter::{Drain, IntoIter, Iter};

mod engine;
pub mod handle;
pub mod iter;
pub mod laws;
pub mod layout;
mod mem;
pub mod order;
pub mod search;
pub mod shape;
pub mod sift;
pub mod storage;

verus! {

/// A priority queue implemented with a bi-parental heap (beap).
///
/// This is a max-heap: `peek` and `pop` give the greatest element.
pub struct Beap<T> {
    data: Vec<T>,
    height: usize,
}

impl<T> View for Beap<T> {
    type V = Seq<T>;

    /// The elements in the order in which the beap stores them.
    closed spec fn view(&self) -> Seq<T> {
        self.data@
    }
}

impl<T> Beap<T> {
    /// The number of blocks that the beap takes itself to occupy.
    pub closed spec fn rows(&self) -> int {
        self.height as int
    }

    /// The number of blocks is the one that the length asks for.
    pub open spec fn framed(&self) -> bool {
        height_fits(self@.len() as int, self.rows())
    }
}

impl<T: Ord> Beap<T> {
    /// The beap is well formed: the number of blocks is the one that the
    /// length asks for, and no element comes before one of its children.
    pub open spec fn wf(&self) -> bool {
        &&& self.framed()
        &&& is_beap(self@)
    }
}

} // verus!
