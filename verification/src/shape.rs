//! The beap order on a flat sequence.
//!
//! The slot at offset `p` of block `b` has two children, the slots at offsets
//! `p` and `p + 1` of block `b + 1`, and up to two parents, the slots at
//! offsets `p - 1` and `p` of block `b - 1`. A sequence is a beap when no
//! element comes before one of its children.
use crate::layout::{
    block_of, block_start, height_fits, in_block, lemma_block_first, lemma_block_monotone,
    lemma_block_of, lemma_block_step, lemma_slot_apart, slot,
};
use crate::order::{le, lemma_reflexive, lemma_transitive, lt, total_order};
use crate::storage::descending;
use vstd::prelude::*;
use vstd::seq_lib::{to_multiset_remove, to_multiset_update};

verus! {

/// The sequence with the elements at `i` and `j` exchanged.
pub open spec fn swapped<T>(s: Seq<T>, i: int, j: int) -> Seq<T> {
    s.update(i, s[j]).update(j, s[i])
}

/// Exchanging two elements keeps the elements.
pub proof fn lemma_swapped_multiset<T>(s: Seq<T>, i: int, j: int)
    requires
        0 <= i < s.len(),
        0 <= j < s.len(),
    ensures
        swapped(s, i, j).to_multiset() == s.to_multiset(),
        swapped(s, i, j).len() == s.len(),
{
    to_multiset_update(s, i, s[j]);
    to_multiset_update(s.update(i, s[j]), j, s[i]);
    assert(s.to_multiset().count(s[i]) > 0) by {
        s.to_multiset_ensures();
        assert(s.contains(s[i]));
    }
    assert(s.to_multiset().count(s[j]) > 0) by {
        s.to_multiset_ensures();
        assert(s.contains(s[j]));
    }
    assert(swapped(s, i, j).to_multiset() =~= s.to_multiset());
}

/// The element at `child`, where the sequence has one, does not come after the
/// one at `parent`.
pub open spec fn child_ok<T: Ord>(s: Seq<T>, parent: int, child: int) -> bool {
    0 <= child < s.len() ==> le(s[child], s[parent])
}

/// The slot at offset `p` of block `b` does not come before its children.
pub open spec fn fits_below<T: Ord>(s: Seq<T>, b: int, p: int) -> bool {
    &&& child_ok(s, slot(b, p), slot(b + 1, p))
    &&& child_ok(s, slot(b, p), slot(b + 1, p + 1))
}

/// The slot at offset `p` of block `b` does not come after its parents.
pub open spec fn fits_above<T: Ord>(s: Seq<T>, b: int, p: int) -> bool {
    &&& in_block(b - 1, p - 1) ==> child_ok(s, slot(b - 1, p - 1), slot(b, p))
    &&& in_block(b - 1, p) ==> child_ok(s, slot(b - 1, p), slot(b, p))
}

/// The parents of the slot at offset `p` of block `b` do not come before its
/// children.
pub open spec fn covers<T: Ord>(s: Seq<T>, b: int, p: int) -> bool {
    &&& in_block(b - 1, p - 1) ==> {
        &&& child_ok(s, slot(b - 1, p - 1), slot(b + 1, p))
        &&& child_ok(s, slot(b - 1, p - 1), slot(b + 1, p + 1))
    }
    &&& in_block(b - 1, p) ==> {
        &&& child_ok(s, slot(b - 1, p), slot(b + 1, p))
        &&& child_ok(s, slot(b - 1, p), slot(b + 1, p + 1))
    }
}

/// The beap order around the slot at offset `p` of block `b`, but for what
/// concerns the slot at offset `hp` of block `hb`.
pub open spec fn fits_below_apart<T: Ord>(s: Seq<T>, b: int, p: int, hb: int, hp: int) -> bool {
    !(b == hb && p == hp) ==> {
        &&& !(b + 1 == hb && p == hp) ==> child_ok(s, slot(b, p), slot(b + 1, p))
        &&& !(b + 1 == hb && p + 1 == hp) ==> child_ok(s, slot(b, p), slot(b + 1, p + 1))
    }
}

/// The beap order holds everywhere: no element comes before one of its
/// children.
pub open spec fn is_beap<T: Ord>(s: Seq<T>) -> bool {
    forall|b: int, p: int| in_block(b, p) ==> #[trigger] fits_below(s, b, p)
}

/// The beap order holds between all slots other than the one at offset `hp` of
/// block `hb`.
pub open spec fn is_beap_apart<T: Ord>(s: Seq<T>, hb: int, hp: int) -> bool {
    forall|b: int, p: int| in_block(b, p) ==> #[trigger] fits_below_apart(s, b, p, hb, hp)
}

/// The beap order holds but that the slot at offset `hp` of block `hb` may come
/// before its children or after its parents; its parents do not come before
/// its children.
pub open spec fn is_beap_around<T: Ord>(s: Seq<T>, hb: int, hp: int) -> bool {
    &&& in_block(hb, hp)
    &&& slot(hb, hp) < s.len()
    &&& is_beap_apart(s, hb, hp)
    &&& covers(s, hb, hp)
}

/// A beap is in order around each of its slots.
pub proof fn lemma_beap_around<T: Ord>(s: Seq<T>, hb: int, hp: int)
    requires
        total_order::<T>(),
        is_beap(s),
        in_block(hb, hp),
        slot(hb, hp) < s.len(),
    ensures
        is_beap_around(s, hb, hp),
        fits_above(s, hb, hp),
        fits_below(s, hb, hp),
{
    assert forall|b: int, p: int| in_block(b, p) implies #[trigger] fits_below_apart(
        s,
        b,
        p,
        hb,
        hp,
    ) by {
        assert(fits_below(s, b, p));
    }
    assert(fits_below(s, hb, hp));
    lemma_block_step(hb - 1);
    lemma_block_step(hb);
    lemma_block_monotone(0, hb - 1);
    if in_block(hb - 1, hp - 1) {
        assert(fits_below(s, hb - 1, hp - 1));
        if slot(hb + 1, hp) < s.len() {
            lemma_transitive(s[slot(hb + 1, hp)], s[slot(hb, hp)], s[slot(hb - 1, hp - 1)]);
        }
        if slot(hb + 1, hp + 1) < s.len() {
            lemma_transitive(s[slot(hb + 1, hp + 1)], s[slot(hb, hp)], s[slot(hb - 1, hp - 1)]);
        }
    }
    if in_block(hb - 1, hp) {
        assert(fits_below(s, hb - 1, hp));
        if slot(hb + 1, hp) < s.len() {
            lemma_transitive(s[slot(hb + 1, hp)], s[slot(hb, hp)], s[slot(hb - 1, hp)]);
        }
        if slot(hb + 1, hp + 1) < s.len() {
            lemma_transitive(s[slot(hb + 1, hp + 1)], s[slot(hb, hp)], s[slot(hb - 1, hp)]);
        }
    }
}

/// Order around a slot that fits both above and below is order everywhere.
pub proof fn lemma_beap_restored<T: Ord>(s: Seq<T>, hb: int, hp: int)
    requires
        is_beap_around(s, hb, hp),
        fits_above(s, hb, hp),
        fits_below(s, hb, hp),
    ensures
        is_beap(s),
{
    assert forall|b: int, p: int| in_block(b, p) implies #[trigger] fits_below(s, b, p) by {
        assert(fits_below_apart(s, b, p, hb, hp));
    }
}

/// One step of moving an element up: the element at offset `p` of block `b`
/// comes after its parent at offset `q` of block `b - 1`, which does not come
/// after the other parent. Once the two are exchanged, what is left to mend
/// lies around the parent's slot, which now fits below.
pub proof fn lemma_step_up<T: Ord>(s: Seq<T>, b: int, p: int, q: int)
    requires
        total_order::<T>(),
        is_beap_around(s, b, p),
        in_block(b - 1, q),
        q == p || q == p - 1,
        lt(s[slot(b - 1, q)], s[slot(b, p)]),
        in_block(b - 1, 2 * p - 1 - q) ==> le(s[slot(b - 1, q)], s[slot(b - 1, 2 * p - 1 - q)]),
    ensures
        is_beap_around(swapped(s, slot(b, p), slot(b - 1, q)), b - 1, q),
        fits_below(swapped(s, slot(b, p), slot(b - 1, q)), b - 1, q),
{
    let h = slot(b, p);
    let u = slot(b - 1, q);
    let t = swapped(s, h, u);
    lemma_block_step(b - 2);
    lemma_block_step(b - 1);
    lemma_block_step(b);
    lemma_block_monotone(0, b - 1);
    lemma_slot_apart(b, p, b - 1, q);
    assert(0 <= u < h < s.len());
    assert(fits_below_apart(s, b - 1, q, b, p));
    // the other child of the parent
    let sib = slot(b, 2 * q + 1 - p);
    lemma_slot_apart(b, 2 * q + 1 - p, b, p);
    lemma_slot_apart(b, 2 * q + 1 - p, b - 1, q);
    if sib < s.len() {
        assert(le(s[sib], s[u]));
        lemma_transitive(s[sib], s[u], s[h]);
    }
    assert(fits_below(t, b - 1, q));
    assert forall|c: int, r: int| in_block(c, r) implies #[trigger] fits_below_apart(
        t,
        c,
        r,
        b - 1,
        q,
    ) by {
        assert(fits_below_apart(s, c, r, b, p));
        lemma_block_step(c);
        lemma_block_monotone(0, c);
        lemma_slot_apart(c, r, b, p);
        lemma_slot_apart(c, r, b - 1, q);
        lemma_slot_apart(c + 1, r, b, p);
        lemma_slot_apart(c + 1, r, b - 1, q);
        lemma_slot_apart(c + 1, r + 1, b, p);
        lemma_slot_apart(c + 1, r + 1, b - 1, q);
    }
    assert(covers(t, b - 1, q)) by {
        if in_block(b - 2, q - 1) {
            let g = slot(b - 2, q - 1);
            lemma_slot_apart(b - 2, q - 1, b, p);
            lemma_slot_apart(b - 2, q - 1, b - 1, q);
            assert(fits_below_apart(s, b - 2, q - 1, b, p));
            assert(le(s[u], s[g]));
            if sib < s.len() {
                lemma_transitive(s[sib], s[u], s[g]);
            }
        }
        if in_block(b - 2, q) {
            let g = slot(b - 2, q);
            lemma_slot_apart(b - 2, q, b, p);
            lemma_slot_apart(b - 2, q, b - 1, q);
            assert(fits_below_apart(s, b - 2, q, b, p));
            assert(le(s[u], s[g]));
            if sib < s.len() {
                lemma_transitive(s[sib], s[u], s[g]);
            }
        }
    }
}

/// One step of moving an element down: the element at offset `p` of block `b`
/// comes before its child at offset `k` of block `b + 1`, which does not come
/// before the other child. Once the two are exchanged, what is left to mend
/// lies around the child's slot, which now fits above.
pub proof fn lemma_step_down<T: Ord>(s: Seq<T>, b: int, p: int, k: int)
    requires
        total_order::<T>(),
        is_beap_around(s, b, p),
        fits_above(s, b, p),
        k == p || k == p + 1,
        slot(b + 1, k) < s.len(),
        lt(s[slot(b, p)], s[slot(b + 1, k)]),
        slot(b + 1, 2 * p + 1 - k) < s.len() ==> le(
            s[slot(b + 1, 2 * p + 1 - k)],
            s[slot(b + 1, k)],
        ),
    ensures
        is_beap_around(swapped(s, slot(b + 1, k), slot(b, p)), b + 1, k),
        fits_above(swapped(s, slot(b + 1, k), slot(b, p)), b + 1, k),
{
    let h = slot(b, p);
    let d = slot(b + 1, k);
    let t = swapped(s, d, h);
    lemma_block_step(b - 1);
    lemma_block_step(b);
    lemma_block_step(b + 1);
    lemma_block_monotone(0, b - 1);
    lemma_slot_apart(b, p, b + 1, k);
    lemma_block_monotone(0, b);
    assert(0 <= h < d < s.len());
    // the other parent of the child
    let o = 2 * k - 1 - p;
    if in_block(b, o) {
        lemma_slot_apart(b, o, b, p);
        lemma_slot_apart(b, o, b + 1, k);
        assert(fits_below_apart(s, b, o, b, p));
        assert(le(s[d], s[slot(b, o)]));
        lemma_transitive(s[h], s[d], s[slot(b, o)]);
    }
    assert(fits_above(t, b + 1, k));
    assert(fits_below_apart(s, b + 1, k, b, p));
    assert forall|c: int, r: int| in_block(c, r) implies #[trigger] fits_below_apart(
        t,
        c,
        r,
        b + 1,
        k,
    ) by {
        assert(fits_below_apart(s, c, r, b, p));
        lemma_block_step(c);
        lemma_block_monotone(0, c);
        lemma_slot_apart(c, r, b, p);
        lemma_slot_apart(c, r, b + 1, k);
        lemma_slot_apart(c + 1, r, b, p);
        lemma_slot_apart(c + 1, r, b + 1, k);
        lemma_slot_apart(c + 1, r + 1, b, p);
        lemma_slot_apart(c + 1, r + 1, b + 1, k);
    }
    assert(covers(t, b + 1, k)) by {
        lemma_block_step(b + 2);
        lemma_slot_apart(b + 2, k, b, p);
        lemma_slot_apart(b + 2, k, b + 1, k);
        lemma_slot_apart(b + 2, k + 1, b, p);
        lemma_slot_apart(b + 2, k + 1, b + 1, k);
        let g1 = slot(b + 2, k);
        let g2 = slot(b + 2, k + 1);
        if in_block(b, o) {
            if g1 < s.len() {
                lemma_transitive(s[g1], s[d], s[slot(b, o)]);
            }
            if g2 < s.len() {
                lemma_transitive(s[g2], s[d], s[slot(b, o)]);
            }
        }
    }
}

/// The beap order holds but around flat index `i`, whose parents do not come
/// before its children.
pub open spec fn is_beap_but<T: Ord>(s: Seq<T>, i: int) -> bool {
    is_beap_around(s, block_of(i), i - block_start(block_of(i)))
}

/// In a beap no element comes after the one that its slot descends from.
pub proof fn lemma_below_root<T: Ord>(s: Seq<T>, b: int, p: int)
    requires
        total_order::<T>(),
        is_beap(s),
        in_block(b, p),
        slot(b, p) < s.len(),
    ensures
        le(s[slot(b, p)], s[0]),
    decreases b,
{
    lemma_block_first();
    if b == 1 {
        lemma_reflexive(s[0]);
    } else {
        let q = if p <= b - 2 {
            p
        } else {
            p - 1
        };
        lemma_block_step(b - 1);
        lemma_block_monotone(0, b - 1);
        assert(fits_below(s, b - 1, q));
        lemma_below_root(s, b - 1, q);
        lemma_transitive(s[slot(b, p)], s[slot(b - 1, q)], s[0]);
    }
}

/// The first element of a beap is a greatest one: what `peek` shows and `pop`
/// takes comes before no element of the beap.
pub proof fn lemma_root_greatest<T: Ord>(s: Seq<T>)
    requires
        total_order::<T>(),
        is_beap(s),
    ensures
        forall|i: int| 0 <= i < s.len() ==> le(#[trigger] s[i], s[0]),
{
    assert forall|i: int| 0 <= i < s.len() implies le(#[trigger] s[i], s[0]) by {
        lemma_block_of(i);
        lemma_below_root(s, block_of(i), i - block_start(block_of(i)));
    }
}

/// What is left of a beap when elements are taken from its end is a beap.
pub proof fn lemma_prefix_beap<T: Ord>(s: Seq<T>, n: int)
    requires
        is_beap(s),
        0 <= n <= s.len(),
    ensures
        is_beap(s.take(n)),
{
    let t = s.take(n);
    assert forall|b: int, p: int| in_block(b, p) implies #[trigger] fits_below(t, b, p) by {
        assert(fits_below(s, b, p));
        lemma_block_step(b);
        lemma_block_monotone(0, b);
    }
}

/// A beap with one more element at its end is in order but around that
/// element, which has no children yet.
pub proof fn lemma_push_around<T: Ord>(s: Seq<T>, item: T, h: int)
    requires
        is_beap(s),
        height_fits(s.len() as int + 1, h),
    ensures
        is_beap_around(s.push(item), h, s.len() - block_start(h)),
        fits_below(s.push(item), h, s.len() - block_start(h)),
{
    let t = s.push(item);
    let n = s.len() as int;
    let p = n - block_start(h);
    lemma_block_step(h);
    lemma_block_step(h + 1);
    lemma_block_step(h - 1);
    lemma_block_monotone(0, h);
    assert(in_block(h, p));
    assert forall|c: int, r: int| in_block(c, r) implies #[trigger] fits_below_apart(
        t,
        c,
        r,
        h,
        p,
    ) by {
        assert(fits_below(s, c, r));
        lemma_block_step(c);
        lemma_block_monotone(0, c);
        lemma_slot_apart(c, r, h, p);
        lemma_slot_apart(c + 1, r, h, p);
        lemma_slot_apart(c + 1, r + 1, h, p);
    }
}

/// A beap whose first element is replaced is in order but around that
/// element.
pub proof fn lemma_root_around<T: Ord>(s: Seq<T>, item: T)
    requires
        is_beap(s),
        0 < s.len(),
    ensures
        is_beap_around(s.update(0, item), 1, 0),
        fits_above(s.update(0, item), 1, 0),
{
    let t = s.update(0, item);
    lemma_block_first();
    assert forall|c: int, r: int| in_block(c, r) implies #[trigger] fits_below_apart(
        t,
        c,
        r,
        1,
        0,
    ) by {
        assert(fits_below(s, c, r));
        lemma_block_step(c);
        lemma_block_monotone(0, c);
        lemma_slot_apart(c, r, 1, 0);
    }
}

/// Moving the last element into the slot at `i` removes the element that was
/// there and keeps all others.
pub proof fn lemma_fill_slot<T>(s: Seq<T>, i: int)
    requires
        0 <= i < s.len() - 1,
    ensures
        s.drop_last().update(i, s.last()).to_multiset() == s.to_multiset().remove(s[i]),
        s.drop_last().to_multiset() == s.to_multiset().remove(s.last()),
{
    let t = s.drop_last();
    assert(t =~= s.remove(s.len() - 1));
    to_multiset_remove(s, s.len() - 1);
    to_multiset_update(t, i, s.last());
    s.to_multiset_ensures();
    assert(s.contains(s.last()));
    assert(t.update(i, s.last()).to_multiset() =~= s.to_multiset().remove(s[i]));
}

/// Order but around a slot does not depend on the element in that slot.
pub proof fn lemma_update_around<T: Ord>(s: Seq<T>, b: int, p: int, item: T)
    requires
        is_beap_around(s, b, p),
    ensures
        is_beap_around(s.update(slot(b, p), item), b, p),
{
    let t = s.update(slot(b, p), item);
    lemma_block_step(b - 1);
    lemma_block_step(b);
    lemma_block_monotone(0, b - 1);
    assert forall|c: int, r: int| in_block(c, r) implies #[trigger] fits_below_apart(
        t,
        c,
        r,
        b,
        p,
    ) by {
        assert(fits_below_apart(s, c, r, b, p));
        lemma_block_step(c);
        lemma_block_monotone(0, c);
        lemma_slot_apart(c, r, b, p);
        lemma_slot_apart(c + 1, r, b, p);
        lemma_slot_apart(c + 1, r + 1, b, p);
    }
    if in_block(b - 1, p - 1) {
        lemma_slot_apart(b - 1, p - 1, b, p);
        lemma_slot_apart(b + 1, p, b, p);
        lemma_slot_apart(b + 1, p + 1, b, p);
    }
    if in_block(b - 1, p) {
        lemma_slot_apart(b - 1, p, b, p);
        lemma_slot_apart(b + 1, p, b, p);
        lemma_slot_apart(b + 1, p + 1, b, p);
    }
}

/// A beap in which one element is replaced is in order but around it.
pub proof fn lemma_update_but<T: Ord>(s: Seq<T>, i: int, item: T)
    requires
        total_order::<T>(),
        is_beap(s),
        0 <= i < s.len(),
    ensures
        is_beap_but(s.update(i, item), i),
{
    lemma_block_of(i);
    let b = block_of(i);
    lemma_beap_around(s, b, i - block_start(b));
    lemma_update_around(s, b, i - block_start(b), item);
}

/// Flat index `i` holds a smallest element of `s`, and the first such among
/// the last `h` of them.
pub open spec fn is_tail<T: Ord>(s: Seq<T>, h: int, i: int) -> bool {
    &&& 0 <= s.len() - h <= i < s.len()
    &&& forall|j: int| 0 <= j < s.len() ==> le(s[i], #[trigger] s[j])
    &&& forall|j: int| s.len() - h <= j < i ==> lt(s[i], #[trigger] s[j])
}

/// Below every slot of a beap of `h` blocks, one of the last `h` slots holds
/// an element that does not come after it.
pub proof fn lemma_leaf_below<T: Ord>(s: Seq<T>, h: int, b: int, p: int) -> (j: int)
    requires
        total_order::<T>(),
        is_beap(s),
        height_fits(s.len() as int, h),
        in_block(b, p),
        slot(b, p) < s.len(),
    ensures
        0 <= s.len() - h <= j < s.len(),
        le(s[j], s[slot(b, p)]),
    decreases h - b,
{
    lemma_block_step(b);
    lemma_block_step(h);
    lemma_block_step(h - 1);
    lemma_block_monotone(0, b);
    lemma_block_monotone(0, h);
    if b > h {
        lemma_block_monotone(h + 1, b);
    }
    if slot(b + 1, p) < s.len() {
        assert(fits_below(s, b, p));
        let j = lemma_leaf_below(s, h, b + 1, p);
        lemma_transitive(s[j], s[slot(b + 1, p)], s[slot(b, p)]);
        j
    } else {
        if b + 1 < h {
            lemma_block_step(b + 1);
            lemma_block_monotone(b + 2, h);
        }
        lemma_reflexive(s[slot(b, p)]);
        slot(b, p)
    }
}

/// An element that does not come after any of the last `h` comes after none
/// at all.
pub proof fn lemma_tail_least<T: Ord>(s: Seq<T>, h: int, i: int)
    requires
        total_order::<T>(),
        is_beap(s),
        height_fits(s.len() as int, h),
        0 <= s.len() - h <= i < s.len(),
        forall|j: int| s.len() - h <= j < s.len() ==> le(s[i], #[trigger] s[j]),
    ensures
        forall|j: int| 0 <= j < s.len() ==> le(s[i], #[trigger] s[j]),
{
    assert forall|j: int| 0 <= j < s.len() implies le(s[i], #[trigger] s[j]) by {
        lemma_block_of(j);
        let k = lemma_leaf_below(s, h, block_of(j), j - block_start(block_of(j)));
        lemma_transitive(s[i], s[k], s[j]);
    }
}

/// A sequence in descending order is a beap.
pub proof fn lemma_descending_beap<T: Ord>(s: Seq<T>)
    requires
        descending(s),
    ensures
        is_beap(s),
{
    assert forall|b: int, p: int| in_block(b, p) implies #[trigger] fits_below(s, b, p) by {
        lemma_block_step(b);
        lemma_block_monotone(0, b);
    }
}

/// What is left when the last element is taken from a sequence that is in
/// order but around one slot: a beap where that slot was the last, and else
/// in order but around the same slot.
pub proof fn lemma_prefix_but<T: Ord>(s: Seq<T>, i: int)
    requires
        is_beap_but(s, i),
        0 <= i < s.len(),
    ensures
        i == s.len() - 1 ==> is_beap(s.drop_last()),
        i < s.len() - 1 ==> is_beap_but(s.drop_last(), i),
{
    let t = s.drop_last();
    lemma_block_of(i);
    let b = block_of(i);
    let p = i - block_start(b);
    lemma_block_step(b);
    lemma_block_step(b - 1);
    lemma_block_monotone(0, b - 1);
    if i == s.len() - 1 {
        assert forall|c: int, r: int| in_block(c, r) implies #[trigger] fits_below(t, c, r) by {
            assert(fits_below_apart(s, c, r, b, p));
            lemma_block_step(c);
            lemma_block_monotone(0, c);
            lemma_slot_apart(c, r, b, p);
            lemma_slot_apart(c + 1, r, b, p);
            lemma_slot_apart(c + 1, r + 1, b, p);
        }
    } else {
        assert forall|c: int, r: int| in_block(c, r) implies #[trigger] fits_below_apart(
            t,
            c,
            r,
            b,
            p,
        ) by {
            assert(fits_below_apart(s, c, r, b, p));
            lemma_block_step(c);
            lemma_block_monotone(0, c);
        }
    }
}

} // verus!
