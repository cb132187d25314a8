use beap::Beap;
use rand::{thread_rng, Rng};

/// The beap order and the number of blocks, read off the layout.
fn in_order(layout: &[i64]) -> bool {
    let mut start = 0;
    let mut block = 1;
    while start < layout.len() {
        for offset in 0..block {
            let pos = start + offset;
            if pos >= layout.len() {
                break;
            }
            for child in [pos + block, pos + block + 1] {
                if child < layout.len() && layout[child] > layout[pos] {
                    return false;
                }
            }
        }
        start += block;
        block += 1;
    }
    true
}

/// Pushing on a beap, popping from both ends and looking inside it keep
/// working only where the number of blocks is right.
fn usable(beap: &Beap<i64>) -> bool {
    let mut copy = beap.clone();
    let layout = beap.as_slice().to_vec();
    if !in_order(&layout) {
        return false;
    }
    for v in &layout {
        if !copy.contains(v) {
            return false;
        }
    }
    let mut sorted = layout.clone();
    sorted.sort();
    if copy.tail() != sorted.first() || copy.peek() != sorted.last() {
        return false;
    }
    copy.push(i64::MAX);
    copy.push(i64::MIN);
    in_order(copy.as_slice()) && copy.pop() == Some(i64::MAX) && copy.pop_tail() == Some(i64::MIN)
        && in_order(copy.as_slice())
}

#[test]
fn order_holds_after_every_operation() {
    let mut rng = thread_rng();
    for round in 0..40 {
        let mut beap: Beap<i64> = Beap::new();
        let mut model: Vec<i64> = Vec::new();
        for _ in 0..120 {
            match rng.gen_range(0..9) {
                0 | 1 | 2 => {
                    let x = rng.gen_range(-20..=20);
                    beap.push(x);
                    model.push(x);
                },
                3 => {
                    model.sort();
                    assert_eq!(beap.pop(), model.pop());
                },
                4 => {
                    model.sort();
                    let least = if model.is_empty() { None } else { Some(model.remove(0)) };
                    assert_eq!(beap.pop_tail(), least);
                },
                5 => {
                    let x = rng.gen_range(-20..=20);
                    let found = model.iter().position(|&v| v == x);
                    assert_eq!(beap.remove(&x), found.is_some());
                    if let Some(i) = found {
                        model.remove(i);
                    }
                },
                6 => {
                    let x = rng.gen_range(-20..=20);
                    let y = rng.gen_range(-20..=20);
                    let found = model.iter().position(|&v| v == x);
                    assert_eq!(beap.replace(&x, y), found.is_some());
                    if let Some(i) = found {
                        model[i] = y;
                    }
                },
                7 => {
                    let n = rng.gen_range(0..6);
                    let mut more: Vec<i64> = (0..n).map(|_| rng.gen_range(-20..=20)).collect();
                    model.extend(more.iter().copied());
                    if round % 2 == 0 {
                        beap.append_vec(&mut more);
                        assert!(more.is_empty());
                    } else {
                        let mut other = Beap::from(more);
                        beap.append(&mut other);
                        assert!(other.is_empty());
                        assert!(usable(&other));
                    }
                },
                _ => {
                    if !model.is_empty() {
                        let pos = rng.gen_range(0..model.len());
                        let y = rng.gen_range(-20..=20);
                        let mut at = beap.get_mut(pos).unwrap();
                        let was = *at.get();
                        *at.get_mut() = y;
                        at.release();
                        let i = model.iter().position(|&v| v == was).unwrap();
                        model[i] = y;
                    }
                },
            }
            assert_eq!(beap.len(), model.len());
            assert!(usable(&beap));
            let mut have = beap.as_slice().to_vec();
            have.sort();
            let mut want = model.clone();
            want.sort();
            assert_eq!(have, want);
        }
    }
}

#[test]
fn sorted_whatever_the_insertion_order() {
    let values = vec![5, -3, 9, 9, 0, 2, -3, 7, 1, 1, 4];
    let mut want = values.clone();
    want.sort();

    let forward = Beap::from_iter(values.clone().into_iter());
    assert_eq!(forward.into_sorted_vec(), want);

    let mut pushed = Beap::new();
    for &v in values.iter().rev() {
        pushed.push(v);
    }
    assert_eq!(pushed.into_sorted_vec(), want);

    let mut mixed = Beap::new();
    mixed.extend(values.iter().copied().skip(4));
    mixed.append_vec(&mut values.iter().copied().take(4).collect());
    assert_eq!(mixed.into_sorted_vec(), want);
    assert_eq!(Beap::from(vec![3, 5, 9, 7]).into_sorted_vec(), vec![3, 5, 7, 9]);
}

#[test]
fn extraction_is_in_order() {
    let values = vec![4, 4, -1, 10, 3, 8, 8, 0, -6, 2];
    let mut beap = Beap::new();
    for &v in &values {
        beap.push(v);
    }
    let mut greatest = beap.clone();
    let mut down = Vec::new();
    while let Some(v) = greatest.pop() {
        down.push(v);
    }
    assert_eq!(down, vec![10, 8, 8, 4, 4, 3, 2, 0, -1, -6]);

    let mut up = Vec::new();
    while let Some(v) = beap.pop_tail() {
        up.push(v);
    }
    assert_eq!(up, vec![-6, -1, 0, 2, 3, 4, 4, 8, 8, 10]);
}

#[test]
fn push_and_pop_do_not_interfere() {
    let mut beap = Beap::new();
    let steps: [(bool, i32); 10] = [
        (true, 3), (true, 8), (false, 0), (true, 1), (true, 8),
        (false, 0), (false, 0), (true, 5), (false, 0), (false, 0),
    ];
    let peeks = [Some(3), Some(8), Some(3), Some(3), Some(8), Some(3), Some(1), Some(5), Some(1), None];
    let lens = [1, 2, 1, 2, 3, 2, 1, 2, 1, 0];
    for (i, &(push, x)) in steps.iter().enumerate() {
        if push {
            beap.push(x);
        } else {
            beap.pop();
        }
        assert_eq!(beap.peek().copied(), peeks[i]);
        assert_eq!(beap.len(), lens[i]);
    }
}

#[test]
fn pushpop_is_push_then_pop() {
    for x in [-5, 0, 3, 4, 7, 9, 12] {
        let mut one = Beap::from(vec![3, 9, 4, 0, 7]);
        let mut two = one.clone();
        two.push(x);
        assert_eq!(one.pushpop(x), two.pop().unwrap());
        assert_eq!(one.len(), two.len());
        assert_eq!(one.into_sorted_vec(), two.into_sorted_vec());
    }
    let mut empty: Beap<i32> = Beap::new();
    assert_eq!(empty.pushpop(1), 1);
    assert!(empty.is_empty());
}

#[test]
fn contains_and_remove_agree() {
    let mut beap = Beap::from(vec![6, 2, 6, 1, 9]);
    for v in [1, 2, 6, 9] {
        assert!(beap.contains(&v));
    }
    for v in [0, 3, 5, 7, 10] {
        assert!(!beap.contains(&v));
    }
    assert!(beap.remove(&6));
    assert_eq!(beap.len(), 4);
    assert_eq!(beap.clone().into_sorted_vec(), vec![1, 2, 6, 9]);
    assert!(beap.remove(&6));
    assert_eq!(beap.clone().into_sorted_vec(), vec![1, 2, 9]);
    assert!(!beap.remove(&6));
    assert!(beap.remove(&9));
    assert!(!beap.remove(&9));
    assert_eq!(beap.into_sorted_vec(), vec![1, 2]);
}

#[test]
fn merge_leaves_the_source_empty() {
    let mut a = Beap::from(vec![-10, 1, 2, 3, 3]);
    let mut b = Beap::from(vec![-20, 5, 43]);
    a.append(&mut b);
    assert!(b.is_empty());
    assert_eq!(b.tail(), None);
    assert_eq!(a.len(), 8);
    assert_eq!(a.peek(), Some(&43));
    assert_eq!(a.tail(), Some(&-20));
    a.push(44);
    assert_eq!(a.pop(), Some(44));
    assert_eq!(a.into_sorted_vec(), [-20, -10, 1, 2, 3, 3, 5, 43]);

    let mut beap = Beap::from(vec![-10, 1, 2, 3, 3]);
    let mut v = vec![-20, 5, 43];
    beap.append_vec(&mut v);
    assert_eq!(beap.clone().pop_tail(), Some(-20));
    assert_eq!(beap.into_sorted_vec(), [-20, -10, 1, 2, 3, 3, 5, 43]);
    assert!(v.is_empty());
}
