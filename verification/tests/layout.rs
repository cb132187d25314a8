use beap::{Beap, PeekMut, PosMut};

fn pushed_in_turn(items: &[i32]) -> Beap<i32> {
    let mut beap = Beap::new();
    for &item in items {
        beap.push(item);
    }
    beap
}

#[test]
fn push_goes_past_the_lower_parent() {
    let mut beap = Beap::from(vec![10, 8, 5]);
    beap.push(9);
    assert_eq!(beap.as_slice(), &[10, 9, 5, 8]);
    // 7 has the parents 9 and 5 and takes the place of 5
    beap.push(7);
    assert_eq!(beap.as_slice(), &[10, 9, 7, 8, 5]);
}

#[test]
fn push_that_fits_stays_at_the_end() {
    let mut beap = Beap::from(vec![10, 8, 5]);
    beap.push(8);
    assert_eq!(beap.as_slice(), &[10, 8, 5, 8]);
    beap.push(1);
    assert_eq!(beap.as_slice(), &[10, 8, 5, 8, 1]);
}

#[test]
fn push_of_the_greatest_goes_to_the_front() {
    let mut beap = pushed_in_turn(&[1, 5, 2, 3, 0]);
    assert_eq!(beap.as_slice(), &[5, 3, 2, 1, 0]);
    beap.push(4);
    assert_eq!(beap.as_slice(), &[5, 3, 4, 1, 0, 2]);
    beap.push(6);
    assert_eq!(beap.as_slice(), &[6, 5, 4, 3, 0, 2, 1]);
}

#[test]
fn pop_goes_past_the_greater_child() {
    let mut beap = Beap::from(vec![1, 2, 3, 4, 5, 6, 7, 8, 9]);
    assert_eq!(beap.as_slice(), &[9, 8, 7, 6, 5, 4, 3, 2, 1]);
    assert_eq!(beap.pop(), Some(9));
    assert_eq!(beap.as_slice(), &[8, 6, 7, 3, 5, 4, 1, 2]);
}

#[test]
fn pop_of_the_last_two() {
    let mut beap = Beap::from(vec![2, 1]);
    assert_eq!(beap.pop(), Some(2));
    assert_eq!(beap.as_slice(), &[1]);
    assert_eq!(beap.pop(), Some(1));
    assert!(beap.as_slice().is_empty());
}

#[test]
fn pushpop_moves_the_item_down() {
    let mut beap = Beap::from(vec![1, 2, 3, 4, 5, 6, 7, 8, 9]);
    assert_eq!(beap.pushpop(0), 9);
    assert_eq!(beap.as_slice(), &[8, 6, 7, 3, 5, 4, 0, 2, 1]);
    // an item that does not come before the first leaves the beap alone
    assert_eq!(beap.pushpop(8), 8);
    assert_eq!(beap.as_slice(), &[8, 6, 7, 3, 5, 4, 0, 2, 1]);
}

#[test]
fn remove_index_fills_the_gap_from_the_end() {
    let mut beap = Beap::from(vec![1, 2, 3, 4, 5, 6, 7, 8, 9]);
    assert_eq!(beap.remove_index(4), Some(5));
    assert_eq!(beap.as_slice(), &[9, 8, 7, 6, 2, 4, 3, 1]);
    // the last position leaves without a move
    assert_eq!(beap.remove_index(7), Some(1));
    assert_eq!(beap.as_slice(), &[9, 8, 7, 6, 2, 4, 3]);
}

#[test]
fn remove_takes_the_found_element_out() {
    let mut beap = Beap::from(vec![1, 2, 3, 4, 5, 6, 7, 8, 9]);
    assert!(beap.remove(&5));
    assert_eq!(beap.as_slice(), &[9, 8, 7, 6, 2, 4, 3, 1]);
    assert!(!beap.remove(&5));
    assert_eq!(beap.as_slice(), &[9, 8, 7, 6, 2, 4, 3, 1]);
}

#[test]
fn replace_moves_the_new_value_up() {
    let mut beap = Beap::from(vec![1, 2, 3, 4, 5, 6, 7, 8, 9]);
    assert!(beap.replace(&2, 10));
    assert_eq!(beap.as_slice(), &[10, 8, 9, 6, 7, 4, 3, 5, 1]);
}

#[test]
fn replace_by_a_value_that_fits_moves_nothing() {
    let mut beap = Beap::from(vec![1, 2, 3, 4, 5, 6, 7, 8, 9]);
    assert!(beap.replace(&5, 5));
    assert_eq!(beap.as_slice(), &[9, 8, 7, 6, 5, 4, 3, 2, 1]);
    assert!(beap.replace(&7, 8));
    assert_eq!(beap.as_slice(), &[9, 8, 8, 6, 5, 4, 3, 2, 1]);
}

#[test]
fn repair_of_a_beap_moves_nothing() {
    let mut beap = pushed_in_turn(&[1, 5, 2, 3, 0, 4]);
    let before = beap.as_slice().to_vec();
    for pos in 0..before.len() {
        beap.repair(pos);
        assert_eq!(beap.as_slice(), &before[..]);
    }
}

#[test]
fn pop_tail_fills_the_gap_from_the_end() {
    let mut beap = pushed_in_turn(&[1, 5, 2, 3, 0, 4]);
    assert_eq!(beap.as_slice(), &[5, 3, 4, 1, 0, 2]);
    assert_eq!(beap.pop_tail(), Some(0));
    assert_eq!(beap.as_slice(), &[5, 3, 4, 1, 2]);
}

#[test]
fn released_handle_moves_the_raised_element_up() {
    let mut beap = pushed_in_turn(&[1, 5, 2, 3, 0]);
    {
        let mut at = beap.get_mut(3).unwrap();
        assert_eq!(*at.get(), 1);
        *at.get_mut() = 10;
        at.release();
    }
    assert_eq!(beap.as_slice(), &[10, 5, 2, 3, 0]);
}

#[test]
fn released_handle_moves_the_lowered_element_down() {
    let mut beap = Beap::from(vec![1, 2, 3, 4, 5, 6, 7, 8, 9]);
    {
        let mut top = beap.peek_mut().unwrap();
        *top.get_mut() = 0;
        top.release();
    }
    assert_eq!(beap.as_slice(), &[8, 6, 7, 3, 5, 4, 0, 2, 1]);
}

#[test]
fn handles_take_out_as_remove_index_does() {
    let mut beap = Beap::from(vec![1, 2, 3, 4, 5, 6, 7, 8, 9]);
    assert_eq!(PeekMut::pop(beap.peek_mut().unwrap()), 9);
    assert_eq!(beap.as_slice(), &[8, 6, 7, 3, 5, 4, 1, 2]);
    assert_eq!(PosMut::remove(beap.get_mut(1).unwrap()), 6);
    assert_eq!(beap.as_slice(), &[8, 5, 7, 3, 2, 4, 1]);
}

#[test]
fn extend_pushes_in_turn() {
    let mut beap = Beap::new();
    beap.extend(vec![1, 5, 2, 3, 0].into_iter());
    assert_eq!(beap.as_slice(), &[5, 3, 2, 1, 0]);
    beap.extend(vec![4, 6].into_iter());
    assert_eq!(beap.as_slice(), pushed_in_turn(&[1, 5, 2, 3, 0, 4, 6]).as_slice());
    assert_eq!(beap.as_slice(), &[6, 5, 4, 3, 0, 2, 1]);
}

#[test]
fn drain_counts_what_is_left() {
    let mut beap = Beap::from(vec![1, 3, 5]);
    let mut drain = beap.drain();
    assert_eq!(drain.size_hint(), (3, Some(3)));
    assert_eq!(drain.next(), Some(5));
    assert_eq!(drain.size_hint(), (2, Some(2)));
    assert_eq!(drain.next_back(), Some(1));
    assert_eq!(drain.size_hint(), (1, Some(1)));
    assert_eq!(drain.next(), Some(3));
    assert_eq!(drain.size_hint(), (0, Some(0)));
    assert_eq!(drain.next(), None);
}
