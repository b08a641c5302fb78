use std::cell::Cell;
use std::rc::Rc;

use sized_chunks::inline_array::InlineArray;

#[test]
fn inline_array_validity_invariant() {
    assert!(Some(InlineArray::<usize, [Box<()>; 2]>::new()).is_some());

    let mut chunk = InlineArray::<usize, [Box<()>; 2]>::new();
    chunk.push(0);
    assert!(Some(chunk).is_some());
}

fn collect_inline<A, T>(array: InlineArray<A, T>) -> Vec<A> {
    let mut out = Vec::new();
    let mut it = array.into_iter();
    while let Some(v) = it.next() {
        out.push(v);
    }
    out
}

#[test]
fn inline_capacity_derivation() {
    // [usize; 16] leaves room for 15 usize elements after the length header.
    assert_eq!(InlineArray::<usize, [usize; 16]>::capacity(), 15);
    // A host exactly as large as the header leaves no element room.
    assert_eq!(InlineArray::<usize, usize>::capacity(), 0);
    // Oversized elements give a zero capacity as well.
    assert_eq!(InlineArray::<[u64; 8], [usize; 2]>::capacity(), 0);
}

#[test]
fn inline_zero_capacity_is_constructible() {
    let array = InlineArray::<usize, usize>::new();
    assert!(array.is_empty());
    assert!(array.is_full());
    assert_eq!(array.len(), 0);
}

#[test]
fn inline_push_pop() {
    let mut array = InlineArray::<u32, [usize; 8]>::new();
    assert_eq!(array.pop(), None);
    array.push(1);
    array.push(2);
    array.push(3);
    assert_eq!(array.len(), 3);
    assert!(!array.is_empty());
    assert_eq!(array.pop(), Some(3));
    assert_eq!(array.pop(), Some(2));
    assert_eq!(array.pop(), Some(1));
    assert_eq!(array.pop(), None);
}

#[test]
fn inline_insert_remove_set() {
    let mut array = InlineArray::<u32, [usize; 8]>::new();
    array.push(10);
    array.push(30);
    array.insert(1, 20);
    assert_eq!(array.get(0), Some(&10));
    assert_eq!(array.get(1), Some(&20));
    assert_eq!(array.get(2), Some(&30));
    assert_eq!(array.get(3), None);
    assert_eq!(array.remove(1), Some(20));
    assert_eq!(array.remove(5), None);
    assert_eq!(array.set(1, 31), 30);
    assert_eq!(collect_inline(array), vec![10, 31]);
}

#[test]
fn inline_split_off_and_clear() {
    let mut array = InlineArray::<u32, [usize; 8]>::new();
    for v in 1..=5 {
        array.push(v);
    }
    let tail = array.split_off(2);
    assert_eq!(array.len(), 2);
    assert_eq!(tail.len(), 3);
    assert_eq!(collect_inline(tail), vec![3, 4, 5]);
    array.clear();
    assert!(array.is_empty());
}

#[test]
fn inline_round_trip_drain() {
    let mut array = InlineArray::<u32, [usize; 8]>::new();
    let input: Vec<u32> = vec![7, 5, 3];
    for v in &input {
        array.push(*v);
    }
    let out = array.drain();
    assert_eq!(out, input);
    assert!(array.is_empty());
}

#[test]
fn inline_clone_independence() {
    let mut array = InlineArray::<u32, [usize; 8]>::new();
    array.push(1);
    array.push(2);
    let mut copy = array.clone();
    copy.push(3);
    assert_eq!(copy.remove(0), Some(1));
    assert_eq!(array.len(), 2);
    assert_eq!(array.get(0), Some(&1));
    assert_eq!(collect_inline(copy), vec![2, 3]);
    assert_eq!(collect_inline(array), vec![1, 2]);
}

#[test]
fn inline_double_ended_iteration() {
    let mut array = InlineArray::<u32, [usize; 8]>::new();
    for v in 1..=4 {
        array.push(v);
    }
    let mut it = array.into_iter();
    assert_eq!(it.next(), Some(1));
    assert_eq!(it.next_back(), Some(4));
    assert_eq!(it.next(), Some(2));
    assert_eq!(it.next_back(), Some(3));
    assert_eq!(it.next(), None);
    assert_eq!(it.next_back(), None);
}

struct DropTest {
    counter: Rc<Cell<i32>>,
}

impl DropTest {
    fn new(counter: &Rc<Cell<i32>>) -> Self {
        counter.set(counter.get() + 1);
        DropTest { counter: counter.clone() }
    }
}

impl Drop for DropTest {
    fn drop(&mut self) {
        self.counter.set(self.counter.get() - 1);
    }
}

#[test]
fn inline_drop_accounting() {
    let counter = Rc::new(Cell::new(0));
    {
        // A host with room for at least three DropTest slots.
        let mut array = InlineArray::<DropTest, [usize; 4]>::new();
        array.push(DropTest::new(&counter));
        array.push(DropTest::new(&counter));
        array.push(DropTest::new(&counter));
        assert_eq!(counter.get(), 3);
        let tail = array.split_off(1);
        assert_eq!(counter.get(), 3);
        drop(tail);
        drop(array);
        assert_eq!(counter.get(), 0);
    }
    assert_eq!(counter.get(), 0);
}
