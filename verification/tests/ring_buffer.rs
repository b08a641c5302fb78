use sized_chunks::ring_buffer::RingBuffer;
use sized_chunks::ring_buffer::index::RawIndex;

fn collect_ring<A, const N: usize>(ring: RingBuffer<A, N>) -> Vec<A> {
    let mut out = Vec::new();
    let mut it = ring.into_iter();
    while let Some(v) = it.next() {
        out.push(v);
    }
    out
}

fn snapshot<A: Clone, const N: usize>(ring: &RingBuffer<A, N>) -> Vec<A> {
    let mut out = Vec::new();
    let mut it = ring.iter();
    while let Some(v) = it.next() {
        out.push(v.clone());
    }
    out
}

#[test]
fn ring_buffer_wrap() {
    let mut ring: RingBuffer<i32, 4> = RingBuffer::new();
    ring.push_back(1);
    ring.push_back(2);
    ring.push_back(3);
    ring.push_back(4);
    assert_eq!(ring.pop_front(), Some(1));
    ring.push_back(5);
    assert_eq!(snapshot(&ring), vec![2, 3, 4, 5]);
    assert_eq!(ring.pop_back(), Some(5));
    assert_eq!(ring.pop_front(), Some(2));
    assert_eq!(snapshot(&ring), vec![3, 4]);
}

#[test]
fn ring_round_trip() {
    let input: Vec<u32> = vec![4, 3, 2, 1];
    let mut ring: RingBuffer<u32, 8> = RingBuffer::from_iter(input.clone());
    assert_eq!(ring.len(), 4);
    let out = ring.drain();
    assert_eq!(out, input);
    assert!(ring.is_empty());
}

#[test]
fn ring_insert_remove_across_wrap() {
    let mut ring: RingBuffer<u32, 4> = RingBuffer::new();
    ring.push_back(1);
    ring.push_back(2);
    ring.push_back(3);
    assert_eq!(ring.pop_front(), Some(1));
    assert_eq!(ring.pop_front(), Some(2));
    ring.push_back(4);
    ring.push_back(5);
    // The live elements now span the wrap point.
    ring.insert(1, 9);
    assert_eq!(snapshot(&ring), vec![3, 9, 4, 5]);
    assert_eq!(ring.remove(2), 4);
    assert_eq!(snapshot(&ring), vec![3, 9, 5]);
    ring.insert(0, 8);
    assert_eq!(snapshot(&ring), vec![8, 3, 9, 5]);
    assert_eq!(ring.remove(0), 8);
    assert_eq!(ring.remove(2), 5);
    assert_eq!(snapshot(&ring), vec![3, 9]);
}

#[test]
fn ring_set_out_of_range_is_none() {
    let mut ring: RingBuffer<u32, 4> = RingBuffer::from_iter(vec![1, 2]);
    assert_eq!(ring.set(0, 7), Some(1));
    assert_eq!(ring.set(2, 9), None);
    assert_eq!(snapshot(&ring), vec![7, 2]);
    assert_eq!(ring.get(2), None);
}

#[test]
fn ring_constructors() {
    let unit = RingBuffer::<u32, 4>::unit(5);
    assert_eq!(collect_ring(unit), vec![5]);
    let pair = RingBuffer::<u32, 4>::pair(5, 6);
    assert_eq!(collect_ring(pair), vec![5, 6]);

    let mut source: RingBuffer<u32, 8> = RingBuffer::from_iter(vec![1, 2, 3]);
    let drained = RingBuffer::drain_from(&mut source);
    assert!(source.is_empty());
    assert_eq!(collect_ring(drained), vec![1, 2, 3]);

    let mut values: Vec<u32> = vec![1, 2, 3, 4];
    let collected = RingBuffer::<u32, 8>::collect_from(&mut values, 2);
    assert_eq!(collect_ring(collected), vec![1, 2]);
    assert_eq!(values, vec![3, 4]);

    let mut source: RingBuffer<u32, 8> = RingBuffer::from_iter(vec![1, 2, 3, 4]);
    let front = RingBuffer::from_front(&mut source, 1);
    assert_eq!(collect_ring(front), vec![1]);
    let back = RingBuffer::from_back(&mut source, 2);
    assert_eq!(collect_ring(back), vec![3, 4]);
    assert_eq!(collect_ring(source), vec![2]);
}

#[test]
fn ring_split_append_drop() {
    let mut ring: RingBuffer<u32, 8> = RingBuffer::from_iter(vec![1, 2, 3, 4, 5]);
    let mut tail = ring.split_off(2);
    assert_eq!(snapshot(&ring), vec![1, 2]);
    assert_eq!(snapshot(&tail), vec![3, 4, 5]);
    ring.append(&mut tail);
    assert!(tail.is_empty());
    assert_eq!(snapshot(&ring), vec![1, 2, 3, 4, 5]);
    ring.drop_left(1);
    ring.drop_right(2);
    assert_eq!(collect_ring(ring), vec![2, 3]);
}

#[test]
fn ring_drain_from_ends() {
    let mut ring: RingBuffer<u32, 8> = RingBuffer::from_iter(vec![1, 2]);
    let mut other: RingBuffer<u32, 8> = RingBuffer::from_iter(vec![3, 4, 5, 6]);
    ring.drain_from_front(&mut other, 2);
    assert_eq!(snapshot(&other), vec![5, 6]);
    ring.drain_from_back(&mut other, 1);
    assert_eq!(snapshot(&other), vec![5]);
    assert_eq!(collect_ring(ring), vec![6, 1, 2, 3, 4]);
}

#[test]
fn ring_insert_ordered() {
    let mut ring: RingBuffer<u32, 8> = RingBuffer::from_iter(vec![2, 4, 6]);
    ring.insert_ordered(5);
    ring.insert_ordered(1);
    ring.insert_ordered(7);
    assert_eq!(collect_ring(ring), vec![1, 2, 4, 5, 6, 7]);
}

#[test]
fn ring_pop_empty_returns_none() {
    let mut ring: RingBuffer<u32, 4> = RingBuffer::new();
    assert_eq!(ring.pop_front(), None);
    assert_eq!(ring.pop_back(), None);
    assert!(!ring.is_full());
    assert_eq!(ring.len(), 0);
}

#[test]
fn ring_clone_independence() {
    let ring: RingBuffer<u32, 8> = RingBuffer::from_iter(vec![1, 2, 3]);
    let mut copy = ring.clone();
    copy.push_back(4);
    assert_eq!(copy.remove(0), 1);
    assert_eq!(snapshot(&ring), vec![1, 2, 3]);
    assert_eq!(collect_ring(copy), vec![2, 3, 4]);
}

#[test]
fn ring_double_ended_iteration() {
    let ring: RingBuffer<u32, 8> = RingBuffer::from_iter(vec![1, 2, 3, 4]);
    let mut it = ring.iter();
    assert_eq!(it.next(), Some(&1));
    assert_eq!(it.next_back(), Some(&4));
    assert_eq!(it.next(), Some(&2));
    assert_eq!(it.next_back(), Some(&3));
    assert_eq!(it.next(), None);
    assert_eq!(it.next_back(), None);
    let mut owned = ring.into_iter();
    assert_eq!(owned.next_back(), Some(4));
    assert_eq!(owned.next(), Some(1));
}

#[test]
fn raw_index_arithmetic() {
    let mut ix: RawIndex<4> = RawIndex::new(3);
    assert_eq!(ix.to_usize(), 3);
    let before = ix.inc();
    assert_eq!(before.to_usize(), 3);
    assert_eq!(ix.to_usize(), 0);
    let after = ix.dec();
    assert_eq!(after.to_usize(), 3);
    assert_eq!(ix.to_usize(), 3);
    assert_eq!(ix.add(2).to_usize(), 1);
    assert_eq!(ix.add(0).to_usize(), 3);
    assert_eq!(ix.sub(3).to_usize(), 0);
    assert_eq!(ix.sub(4).to_usize(), 3);
    let front: RawIndex<4> = RawIndex::new(0);
    assert_eq!(front.sub(1).to_usize(), 3);
}
