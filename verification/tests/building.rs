use beap::Beap;
use rand::{thread_rng, Rng};
use std::collections::BinaryHeap;

#[test]
fn test_from() {
    let b1: Beap<i32> = Beap::from(vec![]);
    assert_eq!(b1.len(), 0);

    let b2: Beap<i32> = Beap::from(vec![]);
    assert_eq!(b2.len(), 0);

    let b1: Beap<i32> = Beap::from(vec![3, 5, 9, 7]);
    assert_eq!(b1.len(), 4);
    assert_eq!(b1.peek(), Some(&9));

    let b2: Beap<i32> = Beap::from(vec![3, 5, 9, 7]);
    assert_eq!(b2.len(), 4);
    assert_eq!(b2.peek(), Some(&9));

    // Random tests
    let mut rng = thread_rng();

    for size in 1..=20 {
        let mut elements: Vec<i64> = Vec::with_capacity(size);
        for _ in 0..size {
            elements.push(rng.gen_range(-30..=30));
        }

        let beap: Beap<i64> = Beap::from(elements.clone());
        assert_eq!(beap.len(), size);

        elements.sort_unstable_by(|x, y| y.cmp(x));
        assert_eq!(beap.peek(), Some(&elements[0]));

        assert_eq!(beap.into_vec(), elements); // The sorted vector satisfies the beap properties.
    }

    // From iter
    let beap_from_vec = Beap::from(vec![3, 2, 5, 4, 1]);

    let mut beap_from_iter: Beap<i32> = Beap::from_iter([3, 2, 5, 4, 1].into_iter());
    let mut temp_beap = beap_from_vec.clone();
    while let Some((a, b)) = temp_beap.pop().zip(beap_from_iter.pop()) {
        assert_eq!(a, b);
    }
    assert!(beap_from_iter.is_empty());

    let mut beap_from_iter = Beap::from_iter([3, 2, 5, 4, 1].into_iter());
    let mut temp_beap = beap_from_vec.clone();
    while let Some((a, b)) = temp_beap.pop().zip(beap_from_iter.pop()) {
        assert_eq!(a, b);
    }
    assert!(beap_from_iter.is_empty());
}

#[test]
fn test_into_sorted_vec() {
    let beap: Beap<i32> = Beap::from(vec![]);
    assert_eq!(beap.into_sorted_vec(), vec![]);

    let beap: Beap<i32> = Beap::from(vec![3, 5, 9, 7]);
    assert_eq!(beap.into_sorted_vec(), vec![3, 5, 7, 9]);

    // Random tests
    let mut rng = thread_rng();

    for size in 1..=50 {
        let mut elements: Vec<i64> = Vec::with_capacity(size);
        for _ in 0..size {
            elements.push(rng.gen_range(-20..=20));
        }

        let beap: Beap<i64> = Beap::from(elements.clone());
        assert_eq!(beap.len(), size);

        elements.sort_unstable();
        assert_eq!(beap.into_sorted_vec(), elements);
    }
}

#[test]
fn test_clone() {
    let h1 = Beap::from(vec![7, 5, 9, 0, 2]);
    let h2 = h1.clone();
    let mut h3 = Beap::<i32>::new();
    h3.clone_from(&h1);
    let res = h1.into_vec();
    assert_eq!(h2.into_vec(), res);
    assert_eq!(h3.into_vec(), res);
}

#[test]
fn test_append() {
    let mut b1: Beap<i64> = Beap::new();
    let mut b2: Beap<i64> = Beap::new();
    b1.append(&mut b2);
    assert_eq!(b1.into_sorted_vec(), vec![]);

    // Random tests against BinaryHeap
    let mut rng = thread_rng();
    for size1 in 0..100 {
        let mut elements1: Vec<i64> = Vec::with_capacity(size1);
        for _ in 0..size1 {
            elements1.push(rng.gen_range(-30..=30));
        }

        let beap = Beap::from(elements1.clone());
        let bin_heap = BinaryHeap::from(elements1);

        for size2 in 0..100 {
            let mut elements2: Vec<i64> = Vec::with_capacity(size2);
            for _ in 0..size2 {
                elements2.push(rng.gen_range(-30..=30));
            }

            let mut b2 = Beap::from(elements2.clone());
            let mut bh2 = BinaryHeap::from(elements2);

            let mut b1 = beap.clone();
            let mut bh1 = bin_heap.clone();

            b1.append(&mut b2);
            bh1.append(&mut bh2);

            assert_eq!(b1.peek(), bh1.peek());
            assert_eq!(b1.len(), bh1.len());
            assert!(b2.is_empty());
            assert_eq!(b2.tail(), None);
            assert_eq!(b1.into_sorted_vec(), bh1.into_sorted_vec());
        }
    }
}

#[test]
fn append_vec() {
    let mut beap = Beap::new();
    beap.append_vec(&mut vec![]);
    assert_eq!(beap.len(), 0);

    beap.append_vec(&mut vec![3, 8, 5]);
    assert_eq!(beap.into_sorted_vec(), vec![3, 5, 8]);

    // Random tests
    let mut rng = thread_rng();
    let mut beap: Beap<i64> = Beap::new();
    let mut all_elements: Vec<i64> = Vec::with_capacity(5050);

    let mut len = 0;
    for size in 0..=100 {
        len += size;

        let mut elements: Vec<i64> = Vec::with_capacity(size);
        for _ in 0..size {
            elements.push(rng.gen_range(-30..=30));
        }

        all_elements.append(&mut elements.clone());
        all_elements.sort_unstable();

        beap.append_vec(&mut elements);

        assert_eq!(beap.len(), len);
        assert_eq!(beap.clone().into_sorted_vec(), all_elements);
        assert!(elements.is_empty());
    }

    assert_eq!(beap.into_sorted_vec(), all_elements);
}

#[test]
fn test_extend() {
    let mut beap: Beap<i64> = Beap::new();

    beap.extend([0].into_iter());
    assert_eq!(beap.len(), 1);

    beap.extend(Vec::<i64>::new().into_iter());
    assert_eq!(beap.len(), 1);

    beap.extend([7, 9, 2, 1].into_iter());
    assert_eq!(beap.into_sorted_vec(), [0, 1, 2, 7, 9]);

    // Random tests against BinaryHeap
    let mut rng = thread_rng();

    let mut beap = Beap::new();
    let mut bin_heap = BinaryHeap::new();

    for size in 0..100 {
        let mut elements: Vec<i64> = Vec::with_capacity(size);
        for _ in 0..size {
            elements.push(rng.gen_range(-30..=30));
        }

        beap.extend(elements.clone().into_iter());
        bin_heap.extend(elements.clone());

        beap.extend(elements.clone().into_iter());
        bin_heap.extend(elements.into_iter());

        assert_eq!(beap.len(), bin_heap.len());
        assert_eq!(beap.peek(), bin_heap.peek());
        assert_eq!(
            beap.clone().into_sorted_vec(),
            bin_heap.clone().into_sorted_vec()
        );
    }

    assert_eq!(beap.into_sorted_vec(), bin_heap.into_sorted_vec());
}

#[test]
fn test_extend_ref() {
    let mut beap: Beap<i64> = Beap::new();

    beap.extend([&0].into_iter().copied());
    assert_eq!(beap.len(), 1);

    beap.extend(Vec::<i64>::new().into_iter());
    assert_eq!(beap.len(), 1);

    beap.extend([&7, &9, &2, &1].into_iter().copied());
    beap.extend([&4, &3, &6, &5].into_iter().copied());
    assert_eq!(beap.into_sorted_vec(), vec![0, 1, 2, 3, 4, 5, 6, 7, 9]);
}
