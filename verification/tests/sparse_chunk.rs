use std::cell::Cell;
use std::rc::Rc;

use sized_chunks::sparse_chunk::SparseChunk;

fn indices_of<A, const N: usize>(chunk: &SparseChunk<A, N>) -> Vec<usize> {
    let mut out = Vec::new();
    let mut it = chunk.indices();
    while let Some(i) = it.next() {
        out.push(i);
    }
    out
}

fn drain_values<A, const N: usize>(chunk: SparseChunk<A, N>) -> Vec<A> {
    let mut out = Vec::new();
    let mut it = chunk.drain();
    while let Some(v) = it.next() {
        out.push(v);
    }
    out
}

#[test]
fn insert_remove_iterate() {
    let mut chunk: SparseChunk<i32, 32> = SparseChunk::new();
    assert_eq!(None, chunk.insert(5, 5));
    assert_eq!(None, chunk.insert(1, 1));
    assert_eq!(None, chunk.insert(24, 42));
    assert_eq!(None, chunk.insert(22, 22));
    assert_eq!(Some(42), chunk.insert(24, 24));
    assert_eq!(None, chunk.insert(31, 31));
    assert_eq!(Some(24), chunk.remove(24));
    assert_eq!(4, chunk.len());
    let indices = indices_of(&chunk);
    assert_eq!(vec![1, 5, 22, 31], indices);
    let values = drain_values(chunk);
    assert_eq!(vec![1, 5, 22, 31], values);
}

#[test]
fn clone_chunk() {
    let mut chunk: SparseChunk<i32, 32> = SparseChunk::new();
    assert_eq!(None, chunk.insert(5, 5));
    assert_eq!(None, chunk.insert(1, 1));
    assert_eq!(None, chunk.insert(24, 42));
    assert_eq!(None, chunk.insert(22, 22));
    let cloned = chunk.clone();
    let right_indices = indices_of(&chunk);
    let left_indices = indices_of(&cloned);
    let right = drain_values(chunk);
    let left = drain_values(cloned);
    assert_eq!(left, right);
    assert_eq!(left_indices, right_indices);
    assert_eq!(vec![1, 5, 22, 24], left_indices);
    assert_eq!(vec![1, 5, 22, 24], right_indices);
}

#[test]
fn iter() {
    let vec: Vec<Option<usize>> =
        (0..64).map(|i| if i % 2 == 0 { Some(i) } else { None }).collect();
    let chunk: SparseChunk<usize, 64> = SparseChunk::from_iter(vec.clone());
    let vec: Vec<usize> = vec
        .iter()
        .cloned()
        .filter(|v| v.is_some())
        .map(|v| v.unwrap())
        .collect();
    let mut got: Vec<usize> = Vec::new();
    let mut it = chunk.iter();
    while let Some(v) = it.next() {
        got.push(*v);
    }
    assert!(vec.iter().eq(got.iter()));
}

#[test]
fn drain() {
    let vec: Vec<Option<usize>> =
        (0..64).map(|i| if i % 2 == 0 { Some(i) } else { None }).collect();
    let chunk: SparseChunk<usize, 64> = SparseChunk::from_iter(vec.clone());
    let vec: Vec<usize> = vec
        .iter()
        .cloned()
        .filter(|v| v.is_some())
        .map(|v| v.unwrap())
        .collect();
    assert!(vec.into_iter().eq(drain_values(chunk).into_iter()));
}

#[test]
fn option_iter() {
    let vec: Vec<Option<usize>> =
        (0..64).map(|i| if i % 2 == 0 { Some(i) } else { None }).collect();
    let chunk: SparseChunk<usize, 64> = SparseChunk::from_iter(vec.clone());
    let mut got: Vec<Option<usize>> = Vec::new();
    let mut it = chunk.option_iter();
    while let Some(o) = it.next() {
        got.push(o.cloned());
    }
    assert!(vec.iter().cloned().eq(got.into_iter()));
}

#[test]
fn option_drain() {
    let vec: Vec<Option<usize>> =
        (0..64).map(|i| if i % 2 == 0 { Some(i) } else { None }).collect();
    let chunk: SparseChunk<usize, 64> = SparseChunk::from_iter(vec.clone());
    let mut got: Vec<Option<usize>> = Vec::new();
    let mut it = chunk.option_drain();
    while let Some(o) = it.next() {
        got.push(o);
    }
    assert!(vec.iter().cloned().eq(got.into_iter()));
}

#[test]
fn sparse_entries() {
    let mut chunk: SparseChunk<i32, 32> = SparseChunk::new();
    chunk.insert(5, 5);
    chunk.insert(1, 1);
    chunk.insert(24, 42);
    chunk.insert(22, 22);
    chunk.insert(24, 24);
    chunk.insert(31, 31);
    chunk.remove(24);
    let mut got: Vec<(usize, i32)> = Vec::new();
    let mut it = chunk.entries();
    while let Some((i, v)) = it.next() {
        got.push((i, *v));
    }
    assert_eq!(got, vec![(1, 1), (5, 5), (22, 22), (31, 31)]);
}

#[test]
fn sparse_unit_pair_get() {
    let unit: SparseChunk<i32, 20> = SparseChunk::unit(18, 5);
    assert_eq!(unit.len(), 1);
    assert_eq!(unit.get(18), Some(&5));
    assert_eq!(unit.get(17), None);
    assert_eq!(unit.get(25), None);
    let pair: SparseChunk<i32, 20> = SparseChunk::pair(4, 40, 9, 90);
    assert_eq!(pair.len(), 2);
    assert_eq!(pair.get(4), Some(&40));
    assert_eq!(pair.get(9), Some(&90));
    assert_eq!(pair.first_index(), Some(4));
}

#[test]
fn sparse_pop_and_first_index() {
    let mut chunk: SparseChunk<i32, 16> = SparseChunk::new();
    assert_eq!(chunk.pop(), None);
    assert_eq!(chunk.first_index(), None);
    chunk.insert(9, 90);
    chunk.insert(3, 30);
    assert_eq!(chunk.first_index(), Some(3));
    assert_eq!(chunk.pop(), Some(30));
    assert_eq!(chunk.pop(), Some(90));
    assert_eq!(chunk.pop(), None);
    assert!(chunk.is_empty());
}

#[test]
fn sparse_remove_absent_returns_none() {
    let mut chunk: SparseChunk<i32, 16> = SparseChunk::new();
    chunk.insert(2, 20);
    assert_eq!(chunk.remove(3), None);
    assert_eq!(chunk.len(), 1);
    assert_eq!(chunk.get(2), Some(&20));
}

#[test]
fn sparse_get_mut() {
    let mut chunk: SparseChunk<i32, 16> = SparseChunk::new();
    chunk.insert(2, 20);
    if let Some(v) = chunk.get_mut(2) {
        *v = 21;
    }
    assert_eq!(chunk.get(2), Some(&21));
    assert!(chunk.get_mut(3).is_none());
    assert!(chunk.get_mut(30).is_none());
}

#[test]
fn sparse_occupancy_agreement() {
    let mut chunk: SparseChunk<i32, 32> = SparseChunk::new();
    let set: Vec<usize> = vec![0, 7, 13, 14, 29, 31];
    for i in &set {
        chunk.insert(*i, *i as i32);
    }
    assert_eq!(chunk.len(), set.len());
    assert!(!chunk.is_full());
    assert_eq!(indices_of(&chunk), set);
    for i in 0..32 {
        assert_eq!(chunk.get(i).is_some(), set.contains(&i));
    }
}

struct DropTest {
    counter: Rc<Cell<i32>>,
}

impl DropTest {
    fn new(counter: &Rc<Cell<i32>>) -> Self {
        counter.set(counter.get() + 1);
        DropTest { counter: counter.clone() }
    }
}

impl Drop for DropTest {
    fn drop(&mut self) {
        self.counter.set(self.counter.get() - 1);
    }
}

#[test]
fn sparse_drop_accounting() {
    let counter = Rc::new(Cell::new(0));
    {
        let mut chunk: SparseChunk<DropTest, 16> = SparseChunk::new();
        for i in 0..5 {
            chunk.insert(i * 3, DropTest::new(&counter));
        }
        assert_eq!(counter.get(), 5);
        chunk.insert(0, DropTest::new(&counter));
        assert_eq!(counter.get(), 5);
        let _ = chunk.remove(3);
        assert_eq!(counter.get(), 4);
        let _ = chunk.pop();
        assert_eq!(counter.get(), 3);
    }
    assert_eq!(counter.get(), 0);
}
