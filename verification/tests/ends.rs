use beap::{Beap, PeekMut, TailMut};
use rand::{thread_rng, Rng};
use std::cmp::Reverse;
use std::collections::binary_heap;
use std::collections::BinaryHeap;

#[test]
fn test_tail() {
    let mut beap: Beap<i32> = Beap::new();
    assert_eq!(beap.tail(), None);

    beap.push(1);
    assert_eq!(beap.tail(), Some(&1));

    beap.push(2);
    assert_eq!(beap.tail(), Some(&1));

    beap.push(3);
    assert_eq!(beap.tail(), Some(&1));

    beap.push(0);
    assert_eq!(beap.tail(), Some(&0));

    beap.push(5);
    assert_eq!(beap.tail(), Some(&0));

    beap.push(0);
    assert_eq!(beap.tail(), Some(&0));

    beap.push(-1);
    assert_eq!(beap.tail(), Some(&-1));

    // Random tests against BinaryHeap
    let mut rng = thread_rng();

    for size in 0..=100 {
        let mut bin_heap = BinaryHeap::with_capacity(size);
        let mut beap = Beap::with_capacity(size);

        for _ in 0..size {
            let x: i64 = rng.gen_range(-30..=30);
            bin_heap.push(Reverse(x));
            beap.push(x);
            assert_eq!(*beap.tail().unwrap(), bin_heap.peek().unwrap().0);
        }
    }
}

#[test]
fn test_pop_tail() {
    // Fixed tests
    let mut beap = Beap::<i32>::new();
    assert_eq!(beap.pop_tail(), None);
    assert_eq!(beap.pop_tail(), None);

    beap.push(1);
    assert_eq!(beap.pop_tail(), Some(1));
    assert_eq!(beap.pop_tail(), None);

    beap.push(0);
    assert_eq!(beap.pop_tail(), Some(0));
    assert_eq!(beap.pop_tail(), None);

    let mut beap = Beap::from(vec![3, 5, 1, 2, 4]);
    assert_eq!(beap.pop_tail(), Some(1));
    assert_eq!(beap.pop_tail(), Some(2));
    assert_eq!(beap.pop_tail(), Some(3));
    assert_eq!(beap.pop_tail(), Some(4));
    assert_eq!(beap.pop_tail(), Some(5));
    assert_eq!(beap.pop_tail(), None);
    assert_eq!(beap.pop_tail(), None);
    assert_eq!(beap.pop_tail(), None);

    let mut beap = Beap::from(vec![3, 5, 1, 2, 4]);
    assert_eq!(beap.pop_tail(), Some(1));
    assert_eq!(beap.pop(), Some(5));
    assert_eq!(beap.pop_tail(), Some(2));
    assert_eq!(beap.pop(), Some(4));
    assert_eq!(beap.pop(), Some(3));
    assert_eq!(beap.pop_tail(), None);

    beap.push(0);
    assert_eq!(beap.pop_tail(), Some(0));
    assert_eq!(beap.pop(), None);
    assert_eq!(beap.pop_tail(), None);

    // Random tests against BinaryHeap
    let mut rng = thread_rng();

    for size in 0..=100 {
        let mut elements: Vec<i64> = Vec::with_capacity(size);
        for _ in 0..size {
            elements.push(rng.gen_range(-30..=30));
        }

        let mut bin_heap: BinaryHeap<Reverse<i64>> =
            BinaryHeap::from_iter(elements.iter().map(|&x| Reverse(x)));
        let mut beap: Beap<i64> = Beap::from(elements.clone());

        while !bin_heap.is_empty() {
            assert_eq!(beap.pop_tail().unwrap(), bin_heap.pop().unwrap().0);
            assert_eq!(beap.len(), bin_heap.len());
        }
        assert_eq!(beap.is_empty(), bin_heap.is_empty());
    }
}

#[test]
fn test_peek_mut() {
    let mut beap: Beap<i32> = Beap::new();
    assert!(beap.peek_mut().is_none());

    beap.push(3);
    {
        let mut top = beap.peek_mut().unwrap();
        *top.get_mut() = 4;
        top.release();
    }
    assert_eq!(beap.peek(), Some(&4));

    beap.push(1);
    beap.push(6);
    assert_eq!(beap.peek(), Some(&6));
    {
        let mut top = beap.peek_mut().unwrap();
        *top.get_mut() = 0;
        top.release();
    }
    assert_eq!(beap.peek(), Some(&4));

    {
        let top = beap.peek_mut().unwrap();
        assert_eq!(PeekMut::pop(top), 4);
    }
    assert_eq!(beap.peek(), Some(&1));

    // Random tests against BinaryHeap
    let mut rng = thread_rng();

    for size in 1..=100 {
        let mut elements: Vec<i64> = Vec::with_capacity(size);
        for _ in 0..size {
            elements.push(rng.gen_range(-30..=30));
        }

        let mut binary_heap: BinaryHeap<i64> = BinaryHeap::from(elements.clone());
        let mut beap: Beap<i64> = Beap::from(elements);

        for _ in 0..size * 2 {
            {
                let new_val: i64 = rng.gen_range(-50..=50);
                let mut binary_heap_top = binary_heap.peek_mut().unwrap();
                let mut beap_top = beap.peek_mut().unwrap();
                *binary_heap_top = new_val;
                *beap_top.get_mut() = new_val;
                beap_top.release();
            }
            assert_eq!(beap.peek(), binary_heap.peek());
        }

        assert_eq!(
            beap.clone().into_sorted_vec(),
            binary_heap.clone().into_sorted_vec()
        );

        for _ in 0..size {
            {
                let bin_val = binary_heap.peek_mut().unwrap();
                let weak_val = beap.peek_mut().unwrap();
                assert_eq!(PeekMut::pop(weak_val), binary_heap::PeekMut::pop(bin_val));
            }
            assert_eq!(beap.peek(), binary_heap.peek());
        }
        assert!(beap.is_empty());
        assert!(binary_heap.is_empty());
    }
}

#[test]
fn test_tail_mut() {
    let mut beap: Beap<i32> = Beap::new();
    assert!(beap.tail_mut().is_none());

    beap.push(3);
    {
        let mut top = beap.tail_mut().unwrap();
        *top.get_mut() = 4;
        top.release();
    }
    assert_eq!(beap.tail(), Some(&4));

    beap.push(1);
    beap.push(6);
    assert_eq!(beap.tail(), Some(&1));
    {
        let mut tail = beap.tail_mut().unwrap();
        *tail.get_mut() = 0;
        tail.release();
    }
    assert_eq!(beap.tail(), Some(&0));

    {
        let mut tail = beap.tail_mut().unwrap();
        *tail.get_mut() = 10;
        tail.release();
    }
    assert_eq!(beap.tail(), Some(&4));

    println!("{:?}", beap.clone().into_vec());
    {
        let tail = beap.tail_mut().unwrap();
        println!("{:?}", tail.get());
        assert_eq!(TailMut::pop(tail), 4);
    }
    assert_eq!(beap.tail(), Some(&6));

    // Random tests against BinaryHeap
    let mut rng = thread_rng();

    for size in 1..=100 {
        let mut elements: Vec<i64> = Vec::with_capacity(size);
        for _ in 0..size {
            elements.push(rng.gen_range(-30..=30));
        }

        let mut bin_heap: BinaryHeap<Reverse<i64>> =
            BinaryHeap::from_iter(elements.iter().map(|&x| Reverse(x)));
        let mut beap: Beap<i64> = Beap::from(elements);

        for _ in 0..size * 2 {
            {
                let new_val: i64 = rng.gen_range(-50..=50);
                let mut bin_heap_tail = bin_heap.peek_mut().unwrap();
                let mut beap_tail = beap.tail_mut().unwrap();
                *bin_heap_tail = Reverse(new_val);
                *beap_tail.get_mut() = new_val;
                beap_tail.release();
            }
            assert_eq!(*beap.tail().unwrap(), bin_heap.peek().unwrap().0);
        }

        let bin_heap_items = bin_heap.clone().into_sorted_vec();
        let bin_heap_items: Vec<i64> = bin_heap_items.into_iter().map(|x| x.0).rev().collect();
        assert_eq!(beap.clone().into_sorted_vec(), bin_heap_items,);

        for _ in 0..size {
            {
                let bin_val = bin_heap.peek_mut().unwrap();
                let beap_val = beap.tail_mut().unwrap();
                assert_eq!(TailMut::pop(beap_val), binary_heap::PeekMut::pop(bin_val).0);
            }
            assert_eq!(beap.is_empty(), bin_heap.is_empty());
            if !beap.is_empty() {
                assert_eq!(*beap.tail().unwrap(), bin_heap.peek().unwrap().0);
            }
        }
        assert!(beap.is_empty());
        assert!(bin_heap.is_empty());
    }
}
