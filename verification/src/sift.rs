//! Where the elements stand after a beap is mended.
//!
//! An element that is out of order is exchanged with a parent or a child,
//! step by step, until it fits. The functions here say which sequence comes
//! of that, and the operations of the beap are stated over them: they fix
//! not only which elements a beap holds, but the slot of each.
use crate::layout::{
    block_of, block_start, height_fits, in_block, lemma_block_first, lemma_block_monotone,
    lemma_block_of, lemma_block_of_slot, lemma_block_step, lemma_slot_apart, lemma_slot_unique,
    owns, slot,
};
use crate::order::{le, lemma_flip, lemma_transitive, lt, total_order};
use crate::shape::{
    fits_above, fits_below, is_beap, is_beap_around, is_beap_but, lemma_beap_around,
    lemma_beap_restored, lemma_fill_slot, lemma_prefix_but, lemma_push_around, lemma_root_around,
    lemma_step_down, lemma_step_up, lemma_swapped_multiset, lemma_update_around,
    lemma_update_but, swapped,
};
use vstd::prelude::*;
use vstd::seq_lib::{to_multiset_build, to_multiset_remove, to_multiset_update};

verus! {

/// The number of blocks that a sequence of `n` elements occupies: none for
/// no element, else the block of the last one.
pub open spec fn rows_of(n: int) -> int {
    if n <= 0 {
        0
    } else {
        block_of(n - 1)
    }
}

/// Offset, in block `b - 1`, of the parent that the element at offset `p` of
/// block `b` is held against: the only parent at the two ends of the block,
/// else the right parent where it comes strictly before the left one, and the
/// left parent where it does not.
pub open spec fn lower_parent<T: Ord>(s: Seq<T>, b: int, p: int) -> int {
    if p == 0 {
        0
    } else if p == b - 1 {
        p - 1
    } else if lt(s[slot(b - 1, p)], s[slot(b - 1, p - 1)]) {
        p
    } else {
        p - 1
    }
}

/// The sequence once the element at offset `p` of block `b` is moved up: as
/// long as it comes strictly after its lower parent, the two are exchanged.
pub open spec fn sifted_up<T: Ord>(s: Seq<T>, b: int, p: int) -> Seq<T>
    decreases b,
{
    if b <= 1 {
        s
    } else {
        let q = lower_parent(s, b, p);
        if le(s[slot(b, p)], s[slot(b - 1, q)]) {
            s
        } else {
            sifted_up(swapped(s, slot(b, p), slot(b - 1, q)), b - 1, q)
        }
    }
}

/// Offset, in block `b + 1`, of the child that the element at offset `p` of
/// block `b` is held against: the right child where the sequence has one and
/// the left child comes strictly before it, else the left child.
pub open spec fn greater_child<T: Ord>(s: Seq<T>, b: int, p: int) -> int {
    if slot(b + 1, p + 1) < s.len() && lt(s[slot(b + 1, p)], s[slot(b + 1, p + 1)]) {
        p + 1
    } else {
        p
    }
}

/// The sequence, of `h` blocks, once the element at offset `p` of block `b`
/// is moved down: as long as it has a child and comes strictly before its
/// greater child, the two are exchanged.
pub open spec fn sifted_down<T: Ord>(s: Seq<T>, h: int, b: int, p: int) -> Seq<T>
    decreases h - b,
{
    if b >= h || slot(b + 1, p) >= s.len() {
        s
    } else {
        let k = greater_child(s, b, p);
        if le(s[slot(b + 1, k)], s[slot(b, p)]) {
            s
        } else {
            sifted_down(swapped(s, slot(b + 1, k), slot(b, p)), h, b + 1, k)
        }
    }
}

/// The sequence once the element at flat index `i` is moved to where it
/// belongs: up as far as it goes, and then, from the slot where it stood,
/// down.
pub open spec fn repaired<T: Ord>(s: Seq<T>, i: int) -> Seq<T> {
    let b = block_of(i);
    let p = i - block_start(b);
    sifted_down(sifted_up(s, b, p), rows_of(s.len() as int), b, p)
}

/// The sequence once `item` is pushed: it is put at the end and moved up.
pub open spec fn pushed<T: Ord>(s: Seq<T>, item: T) -> Seq<T> {
    let b = block_of(s.len() as int);
    sifted_up(s.push(item), b, s.len() - block_start(b))
}

/// The sequence once each of `items` is pushed, the first of them first.
pub open spec fn pushed_all<T: Ord>(s: Seq<T>, items: Seq<T>) -> Seq<T>
    decreases items.len(),
{
    if items.len() == 0 {
        s
    } else {
        pushed_all(pushed(s, items[0]), items.drop_first())
    }
}

/// The sequence once the element at flat index `i` is taken out: the last
/// element is put in its place and moved to where it belongs.
pub open spec fn taken<T: Ord>(s: Seq<T>, i: int) -> Seq<T> {
    if i == s.len() - 1 {
        s.drop_last()
    } else {
        repaired(s.drop_last().update(i, s.last()), i)
    }
}

/// The sequence once `item` is pushed and the greatest element popped: where
/// `item` comes strictly before the first element it takes its place and is
/// moved down, else nothing changes.
pub open spec fn pushpopped<T: Ord>(s: Seq<T>, item: T) -> Seq<T> {
    if s.len() > 0 && lt(item, s[0]) {
        sifted_down(s.update(0, item), rows_of(s.len() as int), 1, 0)
    } else {
        s
    }
}

/// The number of blocks of a sequence is that of its length.
pub proof fn lemma_rows_of(n: int, h: int)
    requires
        0 <= n,
        height_fits(n, h),
    ensures
        h == rows_of(n),
{
    if n > 0 {
        assert(owns(h, n - 1));
        lemma_block_of(n - 1);
        lemma_block_step(h);
        lemma_slot_unique(
            h,
            n - 1 - block_start(h),
            block_of(n - 1),
            n - 1 - block_start(block_of(n - 1)),
        );
    }
}

/// The lower parent of a slot below the first block is one of its parents.
pub proof fn lemma_lower_parent<T: Ord>(s: Seq<T>, b: int, p: int)
    requires
        in_block(b, p),
        b > 1,
    ensures
        in_block(b - 1, lower_parent(s, b, p)),
        lower_parent(s, b, p) == p || lower_parent(s, b, p) == p - 1,
        0 <= slot(b - 1, lower_parent(s, b, p)) < slot(b, p),
{
    lemma_block_step(b - 1);
    lemma_block_monotone(0, b - 1);
}

/// The greater child of a slot that has a child is one of its children.
pub proof fn lemma_greater_child<T: Ord>(s: Seq<T>, b: int, p: int)
    requires
        in_block(b, p),
        slot(b + 1, p) < s.len(),
    ensures
        in_block(b + 1, greater_child(s, b, p)),
        greater_child(s, b, p) == p || greater_child(s, b, p) == p + 1,
        0 <= slot(b, p) < slot(b + 1, greater_child(s, b, p)) < s.len(),
{
    lemma_block_step(b);
    lemma_block_monotone(0, b);
}

/// An element that does not come after its parents is not moved up.
pub proof fn lemma_sifted_up_fits<T: Ord>(s: Seq<T>, b: int, p: int)
    requires
        in_block(b, p),
        slot(b, p) < s.len(),
        fits_above(s, b, p),
    ensures
        sifted_up(s, b, p) == s,
{
    if b > 1 {
        lemma_lower_parent(s, b, p);
    }
}

/// Moving an element up leaves every slot alone but the slot itself and
/// those that it descends from. All slots behind it keep their elements.
pub proof fn lemma_sifted_up_frame<T: Ord>(s: Seq<T>, b: int, p: int)
    requires
        in_block(b, p),
        slot(b, p) < s.len(),
    ensures
        sifted_up(s, b, p).len() == s.len(),
        forall|i: int| slot(b, p) < i < s.len() ==> #[trigger] sifted_up(s, b, p)[i] == s[i],
        forall|c: int, r: int|
            in_block(c, r) && 0 <= slot(c, r) < s.len() && !(c <= b && p - (b - c) <= r <= p)
                ==> sifted_up(s, b, p)[#[trigger] slot(c, r)] == s[slot(c, r)],
    decreases b,
{
    if b > 1 {
        let q = lower_parent(s, b, p);
        lemma_lower_parent(s, b, p);
        if !le(s[slot(b, p)], s[slot(b - 1, q)]) {
            let t = swapped(s, slot(b, p), slot(b - 1, q));
            let u = sifted_up(t, b - 1, q);
            assert(sifted_up(s, b, p) == u);
            lemma_sifted_up_frame(t, b - 1, q);
            assert forall|i: int| slot(b, p) < i < s.len() implies #[trigger] u[i] == s[i] by {
                assert(t[i] == s[i]);
            }
            assert forall|c: int, r: int|
                in_block(c, r) && 0 <= slot(c, r) < s.len() && !(c <= b && p - (b - c) <= r <= p)
                    implies u[#[trigger] slot(c, r)] == s[slot(c, r)] by {
                lemma_slot_apart(c, r, b, p);
                lemma_slot_apart(c, r, b - 1, q);
                assert(t[slot(c, r)] == s[slot(c, r)]);
            }
        }
    }
}

/// Moving an element up changes at most one slot of each block: of two
/// slots of one block, one keeps its element.
pub proof fn lemma_sifted_up_chain<T: Ord>(s: Seq<T>, b: int, p: int)
    requires
        in_block(b, p),
        slot(b, p) < s.len(),
    ensures
        forall|c: int, r: int, v: int|
            in_block(c, r) && in_block(c, v) && r != v && slot(c, r) < s.len() && slot(c, v)
                < s.len() ==> sifted_up(s, b, p)[#[trigger] slot(c, r)] == s[slot(c, r)]
                || sifted_up(s, b, p)[#[trigger] slot(c, v)] == s[slot(c, v)],
    decreases b,
{
    let u = sifted_up(s, b, p);
    lemma_sifted_up_frame(s, b, p);
    if b > 1 {
        let q = lower_parent(s, b, p);
        lemma_lower_parent(s, b, p);
        if !le(s[slot(b, p)], s[slot(b - 1, q)]) {
            let t = swapped(s, slot(b, p), slot(b - 1, q));
            assert(u == sifted_up(t, b - 1, q));
            lemma_sifted_up_frame(t, b - 1, q);
            lemma_sifted_up_chain(t, b - 1, q);
            assert forall|c: int, r: int, v: int|
                in_block(c, r) && in_block(c, v) && r != v && slot(c, r) < s.len() && slot(c, v)
                    < s.len() implies u[#[trigger] slot(c, r)] == s[slot(c, r)]
                    || u[#[trigger] slot(c, v)] == s[slot(c, v)] by {
                lemma_block_monotone(0, c);
                lemma_slot_apart(c, r, b, p);
                lemma_slot_apart(c, r, b - 1, q);
                lemma_slot_apart(c, v, b, p);
                lemma_slot_apart(c, v, b - 1, q);
                assert(c != b - 1 || r == q || t[slot(c, r)] == s[slot(c, r)]);
                assert(c != b - 1 || v == q || t[slot(c, v)] == s[slot(c, v)]);
                if c < b - 1 {
                    assert(t[slot(c, r)] == s[slot(c, r)]);
                    assert(t[slot(c, v)] == s[slot(c, v)]);
                }
            }
        }
    }
}

/// An element that does not come before its children is not moved down.
pub proof fn lemma_sifted_down_fits<T: Ord>(s: Seq<T>, h: int, b: int, p: int)
    requires
        in_block(b, p),
        fits_below(s, b, p),
    ensures
        sifted_down(s, h, b, p) == s,
{
    if b < h && slot(b + 1, p) < s.len() {
        lemma_greater_child(s, b, p);
    }
}

/// Moving an element down leaves every slot alone but the slot itself and
/// those that descend from it. All slots before it keep their elements.
pub proof fn lemma_sifted_down_frame<T: Ord>(s: Seq<T>, h: int, b: int, p: int)
    requires
        in_block(b, p),
        slot(b, p) < s.len(),
    ensures
        sifted_down(s, h, b, p).len() == s.len(),
        forall|i: int| 0 <= i < slot(b, p) ==> #[trigger] sifted_down(s, h, b, p)[i] == s[i],
        forall|c: int, r: int|
            in_block(c, r) && 0 <= slot(c, r) < s.len() && !(b <= c && p <= r <= p + (c - b))
                ==> sifted_down(s, h, b, p)[#[trigger] slot(c, r)] == s[slot(c, r)],
    decreases h - b,
{
    if b < h && slot(b + 1, p) < s.len() {
        let k = greater_child(s, b, p);
        lemma_greater_child(s, b, p);
        if !le(s[slot(b + 1, k)], s[slot(b, p)]) {
            let t = swapped(s, slot(b + 1, k), slot(b, p));
            let u = sifted_down(t, h, b + 1, k);
            assert(sifted_down(s, h, b, p) == u);
            lemma_sifted_down_frame(t, h, b + 1, k);
            assert forall|i: int| 0 <= i < slot(b, p) implies #[trigger] u[i] == s[i] by {
                assert(t[i] == s[i]);
            }
            assert forall|c: int, r: int|
                in_block(c, r) && 0 <= slot(c, r) < s.len() && !(b <= c && p <= r <= p + (c - b))
                    implies u[#[trigger] slot(c, r)] == s[slot(c, r)] by {
                lemma_slot_apart(c, r, b, p);
                lemma_slot_apart(c, r, b + 1, k);
                assert(t[slot(c, r)] == s[slot(c, r)]);
            }
        }
    }
}

/// Moving an element down changes at most one slot of each block: of two
/// slots of one block, one keeps its element.
pub proof fn lemma_sifted_down_chain<T: Ord>(s: Seq<T>, h: int, b: int, p: int)
    requires
        in_block(b, p),
        slot(b, p) < s.len(),
    ensures
        forall|c: int, r: int, v: int|
            in_block(c, r) && in_block(c, v) && r != v && slot(c, r) < s.len() && slot(c, v)
                < s.len() ==> sifted_down(s, h, b, p)[#[trigger] slot(c, r)] == s[slot(c, r)]
                || sifted_down(s, h, b, p)[#[trigger] slot(c, v)] == s[slot(c, v)],
    decreases h - b,
{
    let u = sifted_down(s, h, b, p);
    lemma_sifted_down_frame(s, h, b, p);
    if b < h && slot(b + 1, p) < s.len() {
        let k = greater_child(s, b, p);
        lemma_greater_child(s, b, p);
        if !le(s[slot(b + 1, k)], s[slot(b, p)]) {
            let t = swapped(s, slot(b + 1, k), slot(b, p));
            assert(u == sifted_down(t, h, b + 1, k));
            lemma_sifted_down_frame(t, h, b + 1, k);
            lemma_sifted_down_chain(t, h, b + 1, k);
            assert forall|c: int, r: int, v: int|
                in_block(c, r) && in_block(c, v) && r != v && slot(c, r) < s.len() && slot(c, v)
                    < s.len() implies u[#[trigger] slot(c, r)] == s[slot(c, r)]
                    || u[#[trigger] slot(c, v)] == s[slot(c, v)] by {
                lemma_block_monotone(0, c);
                lemma_slot_apart(c, r, b, p);
                lemma_slot_apart(c, r, b + 1, k);
                lemma_slot_apart(c, v, b, p);
                lemma_slot_apart(c, v, b + 1, k);
                assert(c != b + 1 || r == k || t[slot(c, r)] == s[slot(c, r)]);
                assert(c != b + 1 || v == k || t[slot(c, v)] == s[slot(c, v)]);
                if c > b + 1 {
                    assert(t[slot(c, r)] == s[slot(c, r)]);
                    assert(t[slot(c, v)] == s[slot(c, v)]);
                }
            }
        }
    }
}

/// To mend a beap around any of its elements changes nothing.
pub proof fn lemma_repaired_beap<T: Ord>(s: Seq<T>, i: int)
    requires
        total_order::<T>(),
        is_beap(s),
        0 <= i < s.len(),
    ensures
        repaired(s, i) == s,
{
    lemma_block_of(i);
    let b = block_of(i);
    let p = i - block_start(b);
    lemma_beap_around(s, b, p);
    lemma_sifted_up_fits(s, b, p);
    lemma_sifted_down_fits(s, rows_of(s.len() as int), b, p);
}

/// The first slot is the only one of the first block.
pub proof fn lemma_first_slot()
    ensures
        block_of(0) == 1,
        block_start(block_of(0)) == 0,
{
    lemma_block_first();
    lemma_block_of_slot(1, 0);
}

/// A sequence occupies the number of blocks that `rows_of` gives its length.
pub proof fn lemma_rows_fit(n: int)
    requires
        0 <= n,
    ensures
        height_fits(n, rows_of(n)),
{
    if n > 0 {
        lemma_block_of(n - 1);
    }
}

/// The element that is moved up ends in its own slot or in one of those
/// that the slot descends from.
pub proof fn lemma_sifted_up_lands<T: Ord>(s: Seq<T>, b: int, p: int) -> (at: (int, int))
    requires
        in_block(b, p),
        slot(b, p) < s.len(),
    ensures
        in_block(at.0, at.1),
        at.0 <= b,
        p - (b - at.0) <= at.1 <= p,
        sifted_up(s, b, p)[slot(at.0, at.1)] == s[slot(b, p)],
    decreases b,
{
    if b > 1 {
        let q = lower_parent(s, b, p);
        lemma_lower_parent(s, b, p);
        if !le(s[slot(b, p)], s[slot(b - 1, q)]) {
            let t = swapped(s, slot(b, p), slot(b - 1, q));
            assert(t[slot(b - 1, q)] == s[slot(b, p)]);
            return lemma_sifted_up_lands(t, b - 1, q);
        }
    }
    (b, p)
}

/// The element that is moved down ends in its own slot or in one of those
/// that descend from it.
pub proof fn lemma_sifted_down_lands<T: Ord>(s: Seq<T>, h: int, b: int, p: int) -> (at: (
    int,
    int,
))
    requires
        in_block(b, p),
        slot(b, p) < s.len(),
    ensures
        in_block(at.0, at.1),
        b <= at.0,
        p <= at.1 <= p + (at.0 - b),
        slot(at.0, at.1) < s.len(),
        sifted_down(s, h, b, p)[slot(at.0, at.1)] == s[slot(b, p)],
    decreases h - b,
{
    if b < h && slot(b + 1, p) < s.len() {
        let k = greater_child(s, b, p);
        lemma_greater_child(s, b, p);
        if !le(s[slot(b + 1, k)], s[slot(b, p)]) {
            let t = swapped(s, slot(b + 1, k), slot(b, p));
            assert(t[slot(b + 1, k)] == s[slot(b, p)]);
            return lemma_sifted_down_lands(t, h, b + 1, k);
        }
    }
    (b, p)
}

/// Moving up an element that does not come before its children, in a
/// sequence that is in order but around it, gives a beap of the same
/// elements.
pub proof fn lemma_sifted_up_beap<T: Ord>(s: Seq<T>, b: int, p: int)
    requires
        total_order::<T>(),
        is_beap_around(s, b, p),
        fits_below(s, b, p),
    ensures
        is_beap(sifted_up(s, b, p)),
        sifted_up(s, b, p).len() == s.len(),
        sifted_up(s, b, p).to_multiset() == s.to_multiset(),
    decreases b,
{
    if b <= 1 {
        lemma_beap_restored(s, b, p);
    } else {
        let q = lower_parent(s, b, p);
        let o = 2 * p - 1 - q;
        lemma_lower_parent(s, b, p);
        if in_block(b - 1, o) {
            lemma_flip(s[slot(b - 1, p)], s[slot(b - 1, p - 1)]);
        }
        if le(s[slot(b, p)], s[slot(b - 1, q)]) {
            if in_block(b - 1, o) {
                lemma_transitive(s[slot(b, p)], s[slot(b - 1, q)], s[slot(b - 1, o)]);
            }
            lemma_beap_restored(s, b, p);
        } else {
            lemma_flip(s[slot(b - 1, q)], s[slot(b, p)]);
            lemma_step_up(s, b, p, q);
            lemma_swapped_multiset(s, slot(b, p), slot(b - 1, q));
            lemma_sifted_up_beap(swapped(s, slot(b, p), slot(b - 1, q)), b - 1, q);
        }
    }
}

/// Moving up an element of a sequence that is in order but around it keeps
/// the elements and leaves the element below its parents. Either nothing
/// has moved or the sequence is a beap.
pub proof fn lemma_sifted_up_around<T: Ord>(s: Seq<T>, b: int, p: int)
    requires
        total_order::<T>(),
        is_beap_around(s, b, p),
    ensures
        sifted_up(s, b, p).len() == s.len(),
        sifted_up(s, b, p).to_multiset() == s.to_multiset(),
        sifted_up(s, b, p) == s || is_beap(sifted_up(s, b, p)),
        is_beap_around(sifted_up(s, b, p), b, p),
        fits_above(sifted_up(s, b, p), b, p),
{
    if b > 1 {
        let q = lower_parent(s, b, p);
        let o = 2 * p - 1 - q;
        lemma_lower_parent(s, b, p);
        if in_block(b - 1, o) {
            lemma_flip(s[slot(b - 1, p)], s[slot(b - 1, p - 1)]);
        }
        if le(s[slot(b, p)], s[slot(b - 1, q)]) {
            if in_block(b - 1, o) {
                lemma_transitive(s[slot(b, p)], s[slot(b - 1, q)], s[slot(b - 1, o)]);
            }
        } else {
            let t = swapped(s, slot(b, p), slot(b - 1, q));
            lemma_flip(s[slot(b - 1, q)], s[slot(b, p)]);
            lemma_step_up(s, b, p, q);
            lemma_swapped_multiset(s, slot(b, p), slot(b - 1, q));
            lemma_sifted_up_beap(t, b - 1, q);
            lemma_beap_around(sifted_up(t, b - 1, q), b, p);
        }
    }
}

/// Moving down an element that does not come after its parents, in a
/// sequence of `h` blocks that is in order but around it, gives a beap of the
/// same elements.
pub proof fn lemma_sifted_down_beap<T: Ord>(s: Seq<T>, h: int, b: int, p: int)
    requires
        total_order::<T>(),
        height_fits(s.len() as int, h),
        is_beap_around(s, b, p),
        fits_above(s, b, p),
    ensures
        is_beap(sifted_down(s, h, b, p)),
        sifted_down(s, h, b, p).len() == s.len(),
        sifted_down(s, h, b, p).to_multiset() == s.to_multiset(),
    decreases h - b,
{
    lemma_block_step(b);
    lemma_block_monotone(0, b);
    if b >= h {
        lemma_block_step(h);
        lemma_block_monotone(h, b);
        lemma_beap_restored(s, b, p);
    } else if slot(b + 1, p) >= s.len() {
        lemma_beap_restored(s, b, p);
    } else {
        let k = greater_child(s, b, p);
        let o = slot(b + 1, 2 * p + 1 - k);
        lemma_greater_child(s, b, p);
        if slot(b + 1, p + 1) < s.len() {
            lemma_flip(s[slot(b + 1, p)], s[slot(b + 1, p + 1)]);
        }
        if le(s[slot(b + 1, k)], s[slot(b, p)]) {
            if o < s.len() {
                lemma_transitive(s[o], s[slot(b + 1, k)], s[slot(b, p)]);
            }
            lemma_beap_restored(s, b, p);
        } else {
            lemma_flip(s[slot(b, p)], s[slot(b + 1, k)]);
            lemma_step_down(s, b, p, k);
            lemma_swapped_multiset(s, slot(b + 1, k), slot(b, p));
            lemma_sifted_down_beap(swapped(s, slot(b + 1, k), slot(b, p)), h, b + 1, k);
        }
    }
}

/// To mend a sequence that is in order but around one element gives a beap
/// of the same elements.
pub proof fn lemma_repaired_mends<T: Ord>(s: Seq<T>, i: int)
    requires
        total_order::<T>(),
        is_beap_but(s, i),
    ensures
        is_beap(repaired(s, i)),
        repaired(s, i).len() == s.len(),
        repaired(s, i).to_multiset() == s.to_multiset(),
{
    let b = block_of(i);
    let p = i - block_start(b);
    lemma_sifted_up_around(s, b, p);
    lemma_rows_fit(s.len() as int);
    lemma_sifted_down_beap(sifted_up(s, b, p), rows_of(s.len() as int), b, p);
}

/// A beap onto which an item is pushed is a beap of one element more: the
/// elements that it had, and the item.
pub proof fn lemma_pushed_beap<T: Ord>(s: Seq<T>, item: T)
    requires
        total_order::<T>(),
        is_beap(s),
    ensures
        is_beap(pushed(s, item)),
        pushed(s, item).len() == s.len() + 1,
        pushed(s, item).to_multiset() == s.to_multiset().insert(item),
{
    let b = block_of(s.len() as int);
    lemma_block_of(s.len() as int);
    lemma_push_around(s, item, b);
    to_multiset_build(s, item);
    lemma_sifted_up_beap(s.push(item), b, s.len() - block_start(b));
}

/// A beap out of which an element is taken is a beap of one element less:
/// the elements that it had, but for the one taken.
pub proof fn lemma_taken_beap<T: Ord>(s: Seq<T>, i: int)
    requires
        total_order::<T>(),
        is_beap(s),
        0 <= i < s.len(),
    ensures
        is_beap(taken(s, i)),
        taken(s, i).len() == s.len() - 1,
        taken(s, i).to_multiset() == s.to_multiset().remove(s[i]),
{
    lemma_update_but(s, i, s[i]);
    assert(s.update(i, s[i]) =~= s);
    lemma_prefix_but(s, i);
    if i == s.len() - 1 {
        assert(s.drop_last() =~= s.remove(i));
        to_multiset_remove(s, i);
    } else {
        let t = s.drop_last();
        lemma_block_of(i);
        lemma_update_around(t, block_of(i), i - block_start(block_of(i)), s.last());
        lemma_fill_slot(s, i);
        lemma_repaired_mends(t.update(i, s.last()), i);
    }
}

/// A beap onto which an item is pushed and out of which the greatest is
/// popped, in one step, is a beap of as many elements.
pub proof fn lemma_pushpopped_beap<T: Ord>(s: Seq<T>, item: T)
    requires
        total_order::<T>(),
        is_beap(s),
    ensures
        is_beap(pushpopped(s, item)),
        pushpopped(s, item).len() == s.len(),
        s.len() > 0 && lt(item, s[0]) ==> pushpopped(s, item).to_multiset()
            == s.to_multiset().insert(item).remove(s[0]),
{
    if s.len() > 0 && lt(item, s[0]) {
        lemma_block_first();
        lemma_root_around(s, item);
        to_multiset_update(s, 0, item);
        lemma_rows_fit(s.len() as int);
        lemma_sifted_down_beap(s.update(0, item), rows_of(s.len() as int), 1, 0);
    }
}

} // verus!
