use std::cell::Cell;
use std::rc::Rc;

use sized_chunks::sized_chunk::Chunk;

#[test]
fn sized_chunk_validity_invariant() {
    assert!(Some(Chunk::<Box<()>, 64>::new()).is_some());
}

fn collect_chunk<A, const N: usize>(chunk: Chunk<A, N>) -> Vec<A> {
    let mut out = Vec::new();
    let mut it = chunk.into_iter();
    while let Some(v) = it.next() {
        out.push(v);
    }
    out
}

#[test]
fn chunk_basic_deque() {
    let mut chunk: Chunk<i32, 8> = Chunk::new();
    chunk.push_back(1);
    chunk.push_back(2);
    chunk.push_front(0);
    chunk.push_back(3);
    assert_eq!(chunk.pop_front(), Some(0));
    assert_eq!(collect_chunk(chunk), vec![1, 2, 3]);
}

#[test]
fn chunk_centering_on_overflow() {
    let mut chunk: Chunk<i32, 4> = Chunk::new();
    chunk.push_back(1);
    chunk.push_back(2);
    chunk.push_back(3);
    chunk.push_back(4);
    assert_eq!(chunk.pop_front(), Some(1));
    assert_eq!(chunk.pop_front(), Some(2));
    assert_eq!(chunk.get(0), Some(&3));
    assert_eq!(chunk.get(1), Some(&4));
    chunk.push_back(5);
    assert_eq!(collect_chunk(chunk), vec![3, 4, 5]);
}

#[test]
fn chunk_round_trip() {
    let input: Vec<u32> = vec![9, 8, 7, 3, 2, 1];
    let mut chunk: Chunk<u32, 8> = Chunk::from_iter(input.clone());
    assert_eq!(chunk.len(), 6);
    let out = chunk.drain();
    assert_eq!(out, input);
    assert!(chunk.is_empty());
    assert_eq!(chunk.len(), 0);
}

#[test]
fn chunk_constructors() {
    let empty: Chunk<u32, 8> = Chunk::new();
    assert!(empty.is_empty());
    let unit = Chunk::<u32, 8>::unit(5);
    assert_eq!(collect_chunk(unit), vec![5]);
    let pair = Chunk::<u32, 8>::pair(5, 6);
    assert_eq!(collect_chunk(pair), vec![5, 6]);

    let mut source: Chunk<u32, 8> = Chunk::from_iter(vec![1, 2, 3]);
    let drained = Chunk::drain_from(&mut source);
    assert!(source.is_empty());
    assert_eq!(collect_chunk(drained), vec![1, 2, 3]);

    let mut iter_source: Vec<u32> = vec![1, 2, 3, 4, 5];
    let collected = Chunk::<u32, 8>::collect_from(&mut iter_source, 3);
    assert_eq!(collect_chunk(collected), vec![1, 2, 3]);
    assert_eq!(iter_source, vec![4, 5]);

    let mut source: Chunk<u32, 8> = Chunk::from_iter(vec![1, 2, 3, 4]);
    let front = Chunk::from_front(&mut source, 1);
    assert_eq!(collect_chunk(front), vec![1]);
    let back = Chunk::from_back(&mut source, 2);
    assert_eq!(collect_chunk(back), vec![3, 4]);
    assert_eq!(collect_chunk(source), vec![2]);
}

#[test]
fn chunk_insert_remove_set() {
    let mut chunk: Chunk<u32, 8> = Chunk::from_iter(vec![10, 20, 30, 40]);
    chunk.insert(2, 25);
    assert_eq!(chunk.len(), 5);
    assert_eq!(chunk.get(2), Some(&25));
    assert_eq!(chunk.remove(2), 25);
    assert_eq!(chunk.set(0, 11), 10);
    assert_eq!(chunk.get(0), Some(&11));
    assert_eq!(chunk.get(7), None);
    assert_eq!(collect_chunk(chunk), vec![11, 20, 30, 40]);
}

#[test]
fn chunk_insert_when_wedged_left() {
    // Fill the window to the right edge, then insert near the front: the
    // shift has to go through the free space on the left.
    let mut chunk: Chunk<u32, 4> = Chunk::new();
    chunk.push_back(1);
    chunk.push_back(2);
    chunk.push_back(3);
    chunk.push_back(4);
    assert_eq!(chunk.pop_front(), Some(1));
    chunk.insert(1, 9);
    assert_eq!(collect_chunk(chunk), vec![2, 9, 3, 4]);
}

#[test]
fn chunk_insert_from_vec() {
    let mut chunk: Chunk<u32, 8> = Chunk::from_iter(vec![1, 2, 3]);
    chunk.insert_from(1, vec![7, 8]);
    assert_eq!(collect_chunk(chunk), vec![1, 7, 8, 2, 3]);
}

#[test]
fn chunk_insert_ordered() {
    let mut chunk: Chunk<u32, 8> = Chunk::from_iter(vec![1, 3, 5, 7]);
    chunk.insert_ordered(4);
    chunk.insert_ordered(0);
    chunk.insert_ordered(8);
    assert_eq!(collect_chunk(chunk), vec![0, 1, 3, 4, 5, 7, 8]);
}

#[test]
fn chunk_split_append() {
    let mut chunk: Chunk<u32, 8> = Chunk::from_iter(vec![1, 2, 3, 4, 5]);
    let mut tail = chunk.split_off(2);
    assert_eq!(chunk.len(), 2);
    assert_eq!(tail.len(), 3);
    chunk.append(&mut tail);
    assert!(tail.is_empty());
    assert_eq!(collect_chunk(chunk), vec![1, 2, 3, 4, 5]);
}

#[test]
fn chunk_drop_left_right() {
    let mut chunk: Chunk<u32, 8> = Chunk::from_iter(vec![1, 2, 3, 4, 5]);
    chunk.drop_left(2);
    assert_eq!(chunk.get(0), Some(&3));
    chunk.drop_right(2);
    assert_eq!(collect_chunk(chunk), vec![3, 4]);
}

#[test]
fn chunk_drain_from_ends() {
    let mut chunk: Chunk<u32, 8> = Chunk::from_iter(vec![1, 2]);
    let mut other: Chunk<u32, 8> = Chunk::from_iter(vec![3, 4, 5, 6]);
    chunk.drain_from_front(&mut other, 2);
    assert_eq!(collect_chunk(other), vec![5, 6]);
    let mut chunk2: Chunk<u32, 8> = Chunk::from_iter(vec![9]);
    let mut other2: Chunk<u32, 8> = Chunk::from_iter(vec![5, 6, 7]);
    chunk2.drain_from_back(&mut other2, 2);
    assert_eq!(collect_chunk(other2), vec![5]);
    assert_eq!(collect_chunk(chunk2), vec![6, 7, 9]);
    assert_eq!(collect_chunk(chunk), vec![1, 2, 3, 4]);
}

#[test]
fn chunk_pop_empty_returns_none() {
    let mut chunk: Chunk<u32, 4> = Chunk::new();
    assert_eq!(chunk.pop_front(), None);
    assert_eq!(chunk.pop_back(), None);
}

#[test]
fn chunk_is_full_at_capacity() {
    let mut chunk: Chunk<u32, 2> = Chunk::new();
    assert!(!chunk.is_full());
    chunk.push_back(1);
    chunk.push_back(2);
    assert!(chunk.is_full());
    assert_eq!(chunk.len(), 2);
}

#[test]
fn chunk_clone_independence() {
    let chunk: Chunk<u32, 8> = Chunk::from_iter(vec![1, 2, 3]);
    let mut copy = chunk.clone();
    assert_eq!(copy.len(), chunk.len());
    copy.push_back(4);
    assert_eq!(copy.remove(0), 1);
    assert_eq!(chunk.len(), 3);
    assert_eq!(chunk.get(0), Some(&1));
    assert_eq!(collect_chunk(copy), vec![2, 3, 4]);
    assert_eq!(collect_chunk(chunk), vec![1, 2, 3]);
}

#[test]
fn chunk_double_ended_iteration() {
    let chunk: Chunk<u32, 8> = Chunk::from_iter(vec![1, 2, 3, 4]);
    let mut it = chunk.into_iter();
    assert_eq!(it.next(), Some(1));
    assert_eq!(it.next_back(), Some(4));
    assert_eq!(it.next(), Some(2));
    assert_eq!(it.next_back(), Some(3));
    assert_eq!(it.next(), None);
    assert_eq!(it.next_back(), None);
}

struct DropTest {
    counter: Rc<Cell<i32>>,
}

impl DropTest {
    fn new(counter: &Rc<Cell<i32>>) -> Self {
        counter.set(counter.get() + 1);
        DropTest { counter: counter.clone() }
    }
}

impl Drop for DropTest {
    fn drop(&mut self) {
        self.counter.set(self.counter.get() - 1);
    }
}

#[test]
fn chunk_drop_accounting() {
    let counter = Rc::new(Cell::new(0));
    {
        let mut chunk: Chunk<DropTest, 8> = Chunk::new();
        for _ in 0..6 {
            chunk.push_back(DropTest::new(&counter));
        }
        assert_eq!(counter.get(), 6);
        let _ = chunk.remove(3);
        assert_eq!(counter.get(), 5);
        chunk.drop_left(1);
        assert_eq!(counter.get(), 4);
        let drained = chunk.drain();
        assert_eq!(counter.get(), 4);
        drop(drained);
        assert_eq!(counter.get(), 0);
        chunk.push_front(DropTest::new(&counter));
        assert_eq!(counter.get(), 1);
    }
    assert_eq!(counter.get(), 0);
}
