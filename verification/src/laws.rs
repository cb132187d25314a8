//! What holds of a beap whatever was done to it.
//!
//! The order of the elements may take two values for equal that are not the
//! same value, so what two beaps of the same elements give is stated up to
//! `same`. Where elements that compare equal are equal (`exact_order`), it
//! is the same value.

use crate::order::{
    exact_order, le, lemma_flip, lemma_reflexive, lemma_same_replaces, lemma_transitive, lt, same,
    total_order,
};
use crate::search::holds;
use crate::shape::{is_beap, is_tail, lemma_root_greatest};
use crate::sift::{
    lemma_pushed_beap, lemma_pushpopped_beap, lemma_taken_beap, pushed, pushpopped, taken,
};
use crate::storage::ascending;
use vstd::prelude::*;

verus! {

/// What `pushpop` gives back: the first element of the beap where the pushed
/// item comes strictly before it, else the item itself.
pub open spec fn pushpop_result<T: Ord>(s: Seq<T>, item: T) -> T {
    if s.len() > 0 && lt(item, s[0]) {
        s[0]
    } else {
        item
    }
}

/// Each element of one of two sequences of the same elements is an element
/// of the other.
pub proof fn lemma_shared<T>(s: Seq<T>, t: Seq<T>, i: int) -> (j: int)
    requires
        s.to_multiset() == t.to_multiset(),
        0 <= i < s.len(),
    ensures
        0 <= j < t.len(),
        t[j] == s[i],
{
    s.to_multiset_ensures();
    t.to_multiset_ensures();
    assert(s.contains(s[i]));
    assert(s.to_multiset().count(s[i]) > 0);
    assert(t.to_multiset().count(s[i]) > 0);
    assert(t.contains(s[i]));
    choose|j: int| 0 <= j < t.len() && t[j] == s[i]
}

/// Two beaps of the same elements have first elements that compare equal:
/// what is popped from a beap depends on the elements alone, so popping again
/// and again gives the elements in one descending order whatever the beap was
/// built by.
pub proof fn lemma_pop_agrees<T: Ord>(s: Seq<T>, t: Seq<T>)
    requires
        total_order::<T>(),
        is_beap(s),
        is_beap(t),
        s.to_multiset() == t.to_multiset(),
        s.len() > 0,
    ensures
        t.len() > 0,
        same(s[0], t[0]),
        exact_order::<T>() ==> s[0] == t[0],
{
    s.to_multiset_ensures();
    t.to_multiset_ensures();
    lemma_root_greatest(s);
    lemma_root_greatest(t);
    let j = lemma_shared(s, t, 0);
    let k = lemma_shared(t, s, 0);
    lemma_flip(s[0], t[0]);
}

/// What a beap shows first once `item` is pushed: the item where the beap was
/// empty or its first element comes strictly before the item, else the first
/// element as it was.
pub open spec fn push_first<T: Ord>(s: Seq<T>, item: T) -> T {
    if s.len() == 0 || lt(s[0], item) {
        item
    } else {
        s[0]
    }
}

/// After a push a beap shows what any priority queue of the same elements
/// shows: for every beap `t` that holds the elements of `s` and the pushed
/// item, as the beap after the push does, the first element of `t` compares
/// equal to the greater of the item and the first element of `s`.
pub proof fn lemma_push_first<T: Ord>(s: Seq<T>, item: T, t: Seq<T>)
    requires
        total_order::<T>(),
        is_beap(s),
        is_beap(t),
        t.to_multiset() == s.to_multiset().insert(item),
    ensures
        t.len() == s.len() + 1,
        same(t[0], push_first(s, item)),
        exact_order::<T>() ==> t[0] == push_first(s, item),
{
    let r = push_first(s, item);
    s.to_multiset_ensures();
    t.to_multiset_ensures();
    lemma_root_greatest(s);
    lemma_root_greatest(t);
    lemma_reflexive(item);
    assert(t.to_multiset().count(item) > 0);
    assert(t.contains(item));
    let k = choose|k: int| 0 <= k < t.len() && t[k] == item;
    // the greater of the two is an element of `t`
    assert(le(r, t[0])) by {
        if !(s.len() == 0 || lt(s[0], item)) {
            assert(s.contains(s[0]));
            assert(t.to_multiset().count(s[0]) > 0);
            assert(t.contains(s[0]));
            let m = choose|m: int| 0 <= m < t.len() && t[m] == s[0];
        }
    }
    // and no element of `t` comes after it
    assert(t.to_multiset().count(t[0]) > 0) by {
        assert(t.contains(t[0]));
    }
    assert(le(t[0], r)) by {
        if t[0] == item {
            if s.len() > 0 {
                lemma_flip(s[0], item);
            }
        } else {
            assert(s.to_multiset().count(t[0]) > 0);
            assert(s.contains(t[0]));
            let m = choose|m: int| 0 <= m < s.len() && s[m] == t[0];
            if lt(s[0], item) {
                lemma_transitive(t[0], s[0], item);
            }
        }
    }
    lemma_flip(t[0], r);
}

/// Two beaps of the same elements have smallest elements that compare equal:
/// what `tail` and `pop_tail` give depends on the elements alone.
pub proof fn lemma_tail_agrees<T: Ord>(s: Seq<T>, hs: int, i: int, t: Seq<T>, ht: int, j: int)
    requires
        total_order::<T>(),
        s.to_multiset() == t.to_multiset(),
        is_tail(s, hs, i),
        is_tail(t, ht, j),
    ensures
        same(s[i], t[j]),
        exact_order::<T>() ==> s[i] == t[j],
{
    let k = lemma_shared(s, t, i);
    let m = lemma_shared(t, s, j);
    lemma_flip(s[i], t[j]);
}

/// `pushpop` gives what a `push` followed by a `pop` gives: for every beap
/// `t` that holds the elements of `s` and the pushed item, as the beap after
/// the push does, the first element of `t` compares equal to the result of
/// `pushpop`, and what is left holds the same elements where the order is
/// exact.
pub proof fn lemma_pushpop_as_push_pop<T: Ord>(s: Seq<T>, item: T, t: Seq<T>)
    requires
        total_order::<T>(),
        is_beap(s),
        is_beap(t),
        t.to_multiset() == s.to_multiset().insert(item),
    ensures
        t.len() > 0,
        same(pushpop_result(s, item), t[0]),
        exact_order::<T>() ==> pushpop_result(s, item) == t[0],
{
    let r = pushpop_result(s, item);
    s.to_multiset_ensures();
    t.to_multiset_ensures();
    lemma_root_greatest(s);
    lemma_root_greatest(t);
    lemma_reflexive(item);
    assert(t.to_multiset().count(item) > 0);
    assert(t.contains(item));
    let k = choose|k: int| 0 <= k < t.len() && t[k] == item;
    // the result is an element of `t`
    assert(le(r, t[0])) by {
        if s.len() > 0 && lt(item, s[0]) {
            assert(s.contains(s[0]));
            assert(t.to_multiset().count(s[0]) > 0);
            assert(t.contains(s[0]));
            let m = choose|m: int| 0 <= m < t.len() && t[m] == s[0];
        }
    }
    // and no element of `t` comes after it
    assert(t.to_multiset().count(t[0]) > 0) by {
        assert(t.contains(t[0]));
    }
    assert(le(t[0], r)) by {
        if t[0] == item {
            if s.len() > 0 && lt(item, s[0]) {
            }
        } else {
            assert(s.to_multiset().count(t[0]) > 0);
            assert(s.contains(t[0]));
            let m = choose|m: int| 0 <= m < s.len() && s[m] == t[0];
            if s.len() > 0 && lt(item, s[0]) {
            } else {
                lemma_flip(item, s[0]);
                lemma_transitive(t[0], s[0], item);
            }
        }
    }
    lemma_flip(r, t[0]);
}

/// After a push the beap shows first the greater of the pushed item and of
/// what it showed before.
pub proof fn lemma_pushed_first<T: Ord>(s: Seq<T>, item: T)
    requires
        total_order::<T>(),
        is_beap(s),
    ensures
        same(pushed(s, item)[0], push_first(s, item)),
        exact_order::<T>() ==> pushed(s, item)[0] == push_first(s, item),
{
    lemma_pushed_beap(s, item);
    lemma_push_first(s, item, pushed(s, item));
}

/// `pushpop` is a `push` followed by a `pop`: what it gives back compares
/// equal to what the `pop` gives, and where the order is exact it is the same
/// value and the same elements are left.
pub proof fn lemma_pushpop_is_push_pop<T: Ord>(s: Seq<T>, item: T)
    requires
        total_order::<T>(),
        is_beap(s),
    ensures
        same(pushpop_result(s, item), pushed(s, item)[0]),
        exact_order::<T>() ==> {
            &&& pushpop_result(s, item) == pushed(s, item)[0]
            &&& pushpopped(s, item).to_multiset() == taken(pushed(s, item), 0).to_multiset()
        },
{
    let t = pushed(s, item);
    lemma_pushed_beap(s, item);
    lemma_pushpop_as_push_pop(s, item, t);
    lemma_taken_beap(t, 0);
    lemma_pushpopped_beap(s, item);
    if exact_order::<T>() {
        if !(s.len() > 0 && lt(item, s[0])) {
            assert(s.to_multiset().insert(item).remove(item) =~= s.to_multiset());
        }
    }
}

/// Whether a value is found depends on the elements alone: `contains` is
/// true if and only if some element of what the beap was built from
/// compares equal to the value.
pub proof fn lemma_holds_elements<T: Ord>(s: Seq<T>, t: Seq<T>, val: T)
    requires
        s.to_multiset() == t.to_multiset(),
    ensures
        holds(s, val) == holds(t, val),
{
    if holds(s, val) {
        let i = choose|i: int| 0 <= i < s.len() && same(#[trigger] s[i], val);
        let j = lemma_shared(s, t, i);
    }
    if holds(t, val) {
        let i = choose|i: int| 0 <= i < t.len() && same(#[trigger] t[i], val);
        let j = lemma_shared(t, s, i);
    }
}

/// Once one element that equals a value is removed, the value is still found
/// if and only if another element equals it.
pub proof fn lemma_holds_after_remove<T: Ord>(s: Seq<T>, i: int, t: Seq<T>, val: T)
    requires
        0 <= i < s.len(),
        t.to_multiset() == s.to_multiset().remove(s[i]),
    ensures
        holds(t, val) == exists|j: int| 0 <= j < s.len() && j != i && same(#[trigger] s[j], val),
{
    let u = s.remove(i);
    vstd::seq_lib::to_multiset_remove(s, i);
    lemma_holds_elements(t, u, val);
    if holds(u, val) {
        let k = choose|k: int| 0 <= k < u.len() && same(#[trigger] u[k], val);
        let j = if k < i {
            k
        } else {
            k + 1
        };
        assert(same(s[j], val));
    }
    if exists|j: int| 0 <= j < s.len() && j != i && same(#[trigger] s[j], val) {
        let j = choose|j: int| 0 <= j < s.len() && j != i && same(#[trigger] s[j], val);
        let k = if j < i {
            j
        } else {
            j - 1
        };
        assert(same(u[k], val));
    }
}

/// Two ascending sequences of the same elements agree element by element:
/// what `into_sorted_vec` gives depends on the elements alone, not on how the
/// beap came to hold them.
pub proof fn lemma_sorted_agrees<T: Ord>(x: Seq<T>, y: Seq<T>)
    requires
        total_order::<T>(),
        ascending(x),
        ascending(y),
        x.to_multiset() == y.to_multiset(),
    ensures
        x.len() == y.len(),
        forall|i: int| 0 <= i < x.len() ==> same(#[trigger] x[i], y[i]),
        exact_order::<T>() ==> x == y,
    decreases x.len(),
{
    x.to_multiset_ensures();
    y.to_multiset_ensures();
    if x.len() > 0 {
        let n = x.len() as int;
        let b = y.last();
        let j = lemma_shared(y, x, n - 1);
        let u = x.remove(j);
        let v = y.drop_last();
        vstd::seq_lib::to_multiset_remove(x, j);
        assert(v =~= y.remove(n - 1));
        vstd::seq_lib::to_multiset_remove(y, n - 1);
        lemma_sorted_agrees(u, v);
        assert forall|i: int| 0 <= i < n implies same(#[trigger] x[i], y[i]) by {
            if i < j {
                assert(same(u[i], v[i]));
            } else {
                // from `j` on, the elements of both compare equal to `b`
                let k = lemma_shared(x, y, i);
                lemma_transitive(x[j], x[i], b);
                lemma_flip(x[i], b);
                if i < n - 1 {
                    assert(same(u[i], v[i]));
                    let m = lemma_shared(x, y, i + 1);
                    lemma_flip(x[i + 1], b);
                    lemma_same_replaces(x[i + 1], b, y[i]);
                    lemma_flip(y[i], x[i + 1]);
                    lemma_same_replaces(x[i], b, y[i]);
                    lemma_flip(b, y[i]);
                }
            }
        }
    }
    if exact_order::<T>() {
        assert(x =~= y);
    }
}

} // verus!
