//! A fixed capacity sparse array.
//!
//! See [`SparseChunk`].

use crate::bitmap::Bitmap;
use crate::bitmap::popcount;
use vstd::prelude::*;

verus! {

broadcast use crate::bitmap::lemma_bitmap_view_len, crate::bitmap::lemma_iter_pos_bounds;

/// The occupancy pattern of a slot sequence: `true` where a slot is live.
pub open spec fn occupancy<A>(s: Seq<Option<A>>) -> Seq<bool> {
    Seq::new(s.len(), |i: int| s[i] is Some)
}

/// A fixed capacity sparse array: a map from indices below `N` to values,
/// stored as `N` slots whose occupancy discriminant is kept in a separate
/// [`Bitmap`] rather than next to each value.
///
/// The structural invariant keeps the bitmap and the slots in exact
/// agreement: bit `i` is set precisely when slot `i` holds a value.
pub struct SparseChunk<A, const N: usize> {
    map: Bitmap<N>,
    data: Vec<Option<A>>,
}

impl<A, const N: usize> View for SparseChunk<A, N> {
    type V = Seq<Option<A>>;

    /// The `N` slots, in index order.
    closed spec fn view(&self) -> Seq<Option<A>> {
        self.data@
    }
}

impl<A, const N: usize> SparseChunk<A, N> {
    /// Structural invariant: the bitmap is well formed and mirrors exactly
    /// which of the `N` slots are live.
    pub closed spec fn wf(&self) -> bool {
        &&& self.map.wf()
        &&& self.data@.len() == N
        &&& forall|i: int| 0 <= i < N ==> self.map@[i] == ((#[trigger] self.data@[i]) is Some)
    }

    /// The number of live slots never exceeds `N`, and always equals the
    /// number of set bits in the occupancy pattern.
    pub proof fn lemma_occupancy_agreement(&self)
        requires
            self.wf(),
        ensures
            self@.len() == N,
            popcount(occupancy(self@)) <= N,
    {
        crate::bitmap::lemma_popcount_bound(occupancy(self@));
    }

    /// Construct a new empty chunk.
    pub fn new() -> (r: Self)
        requires
            N + 7 <= usize::MAX,
        ensures
            r.wf(),
            r@ == Seq::new(N as nat, |i: int| None::<A>),
    {
        let map = Bitmap::new();
        let mut data: Vec<Option<A>> = Vec::new();
        let mut k: usize = 0;
        while k < N
            invariant
                data@.len() == k,
                k <= N,
                forall|i: int| 0 <= i < k ==> (#[trigger] data@[i]) is None,
            decreases N - k,
        {
            data.push(None);
            k = k + 1;
        }
        let r = SparseChunk { map, data };
        proof {
            assert(r@ =~= Seq::new(N as nat, |i: int| None::<A>));
        }
        r
    }

    /// Construct a new chunk with one item.
    pub fn unit(index: usize, value: A) -> (r: Self)
        requires
            N + 7 <= usize::MAX,
            index < N,
        ensures
            r.wf(),
            r@ == Seq::new(N as nat, |i: int| None::<A>).update(index as int, Some(value)),
    {
        let mut r = Self::new();
        r.insert(index, value);
        r
    }

    /// Construct a new chunk with two items. When both indices are equal the
    /// second value wins.
    pub fn pair(index1: usize, value1: A, index2: usize, value2: A) -> (r: Self)
        requires
            N + 7 <= usize::MAX,
            index1 < N,
            index2 < N,
        ensures
            r.wf(),
            r@ == Seq::new(N as nat, |i: int| None::<A>).update(index1 as int, Some(value1)).update(
                index2 as int,
                Some(value2),
            ),
    {
        let mut r = Self::new();
        r.insert(index1, value1);
        r.insert(index2, value2);
        r
    }

    /// Construct a chunk from at most `N` slot states in index order:
    /// position `i` of `values` becomes slot `i`. Missing positions are
    /// left free.
    pub fn from_iter(values: Vec<Option<A>>) -> (r: Self)
        requires
            N + 7 <= usize::MAX,
            values@.len() <= N,
        ensures
            r.wf(),
            r@.len() == N,
            forall|i: int| 0 <= i < values@.len() ==> #[trigger] r@[i] == values@[i],
            forall|i: int| values@.len() <= i < N ==> (#[trigger] r@[i]) is None,
    {
        let mut r = Self::new();
        let mut source = values;
        let n = source.len();
        let mut k: usize = 0;
        while k < n
            invariant
                r.wf(),
                k <= n,
                n == values@.len(),
                n <= N,
                r@.len() == N,
                source@ == values@.skip(k as int),
                forall|i: int| 0 <= i < k ==> #[trigger] r@[i] == values@[i],
                forall|i: int| k <= i < N ==> (#[trigger] r@[i]) is None,
            decreases n - k,
        {
            let v = source.remove(0);
            match v {
                Some(value) => {
                    let _ = r.insert(k, value);
                },
                None => {},
            }
            proof {
                assert(source@ =~= values@.skip(k + 1));
            }
            k = k + 1;
        }
        r
    }

    /// The number of live slots.
    pub fn len(&self) -> (r: usize)
        requires
            self.wf(),
        ensures
            r == popcount(occupancy(self@)),
    {
        proof {
            assert(self.map@ =~= occupancy(self@));
        }
        self.map.len()
    }

    /// Whether the chunk holds no values.
    pub fn is_empty(&self) -> (r: bool)
        requires
            self.wf(),
        ensures
            r <==> (forall|i: int| 0 <= i < N ==> !((#[trigger] self@[i]) is Some)),
            r <==> popcount(occupancy(self@)) == 0,
    {
        let r = self.map.is_empty();
        proof {
            assert(self.map@ =~= occupancy(self@));
        }
        r
    }

    /// Whether every slot is live.
    pub fn is_full(&self) -> (r: bool)
        requires
            self.wf(),
        ensures
            r == (popcount(occupancy(self@)) == N),
    {
        self.len() == N
    }

    /// Insert a value at `index`, returning the previous value there, if any.
    pub fn insert(&mut self, index: usize, value: A) -> (r: Option<A>)
        requires
            old(self).wf(),
            index < N,
        ensures
            final(self).wf(),
            r == old(self)@[index as int],
            final(self)@ == old(self)@.update(index as int, Some(value)),
    {
        let _ = self.map.set(index, true);
        let prev = self.data[index].take();
        self.data[index] = Some(value);
        proof {
            assert(self@ =~= old(self)@.update(index as int, Some(value)));
        }
        prev
    }

    /// Remove and return the value at `index`, if any; an index without a
    /// value leaves the chunk unchanged.
    pub fn remove(&mut self, index: usize) -> (r: Option<A>)
        requires
            old(self).wf(),
            index < N,
        ensures
            final(self).wf(),
            r == old(self)@[index as int],
            final(self)@ == old(self)@.update(index as int, None),
            old(self)@[index as int] is None ==> final(self)@ == old(self)@,
    {
        let _ = self.map.set(index, false);
        let prev = self.data[index].take();
        proof {
            assert(self@ =~= old(self)@.update(index as int, None));
            if old(self)@[index as int] is None {
                assert(old(self)@.update(index as int, None) =~= old(self)@);
            }
        }
        prev
    }

    /// Remove and return the value at the smallest live index; `None` when
    /// the chunk is empty.
    pub fn pop(&mut self) -> (r: Option<A>)
        requires
            old(self).wf(),
        ensures
            final(self).wf(),
            match r {
                Some(v) => exists|i: int|
                    #![auto]
                    0 <= i < N && old(self)@[i] == Some(v) && (forall|j: int|
                        0 <= j < i ==> old(self)@[j] is None) && final(self)@ == old(self)@.update(
                        i,
                        None,
                    ),
                None => (forall|i: int| 0 <= i < N ==> (#[trigger] old(self)@[i]) is None) && final(self)@ == old(self)@,
            },
    {
        match self.first_index() {
            Some(index) => self.remove(index),
            None => None,
        }
    }

    /// Borrow the value at `index`; `None` when the index is out of range or
    /// the slot is not live.
    pub fn get(&self, index: usize) -> (r: Option<&A>)
        requires
            self.wf(),
        ensures
            match r {
                Some(a) => index < N && self@[index as int] == Some(*a),
                None => index >= N || self@[index as int] is None,
            },
    {
        if index < N {
            self.data[index].as_ref()
        } else {
            None
        }
    }

    /// Borrow the value at `index` mutably; `None` when the index is out of
    /// range or the slot is not live.
    pub fn get_mut(&mut self, index: usize) -> (r: Option<&mut A>)
        requires
            old(self).wf(),
        ensures
            final(self).wf(),
            r is Some <==> (index < N && old(self)@[index as int] is Some),
            r is None ==> final(self)@ == old(self)@,
            r is Some ==> *r.unwrap() == old(self)@[index as int]->0 && final(self)@ == old(
                self,
            )@.update(index as int, Some(*final(r.unwrap()))),
    {
        if index < N {
            let slot = &mut self.data[index];
            slot.as_mut()
        } else {
            None
        }
    }

    /// The smallest live index; `None` when the chunk is empty.
    pub fn first_index(&self) -> (r: Option<usize>)
        requires
            self.wf(),
        ensures
            match r {
                Some(i) => i < N && self@[i as int] is Some && (forall|j: int|
                    0 <= j < i ==> (#[trigger] self@[j]) is None),
                None => forall|j: int| 0 <= j < N ==> (#[trigger] self@[j]) is None,
            },
    {
        let r = self.map.first_index();
        r
    }

    /// Iterate over the live indices, in ascending order.
    pub fn indices(&self) -> (it: crate::bitmap::Iter<N>)
        requires
            self.wf(),
        ensures
            it.wf(),
            it.bits() == occupancy(self@),
            it.pos() == 0,
    {
        proof {
            assert(self.map@ =~= occupancy(self@));
        }
        self.map.clone().into_iter()
    }

    /// Iterate over the live values, in ascending index order.
    pub fn iter(&self) -> (it: Iter<'_, A, N>)
        requires
            self.wf(),
        ensures
            it.wf(),
            it.chunk_view() == self@,
            it.pos() == 0,
    {
        proof {
            assert(self.map@ =~= occupancy(self@));
        }
        Iter { indices: self.map.clone().into_iter(), chunk: self }
    }

    /// Iterate over pairs of live index and value, in ascending index order.
    pub fn entries(&self) -> (it: Entries<'_, A, N>)
        requires
            self.wf(),
        ensures
            it.wf(),
            it.chunk_view() == self@,
            it.pos() == 0,
    {
        proof {
            assert(self.map@ =~= occupancy(self@));
        }
        Entries { indices: self.map.clone().into_iter(), chunk: self }
    }

    /// Turn the chunk into an iterator that removes and yields the live
    /// values, in ascending index order.
    pub fn drain(self) -> (it: Drain<A, N>)
        requires
            self.wf(),
        ensures
            it.wf(),
            it.remaining() == self@,
    {
        Drain { chunk: self }
    }

    /// Walk every index from `0` to `N`, yielding `Some` borrow for live
    /// slots and `None` for free ones.
    pub fn option_iter(&self) -> (it: OptionIter<'_, A, N>)
        requires
            self.wf(),
        ensures
            it.wf(),
            it.chunk_view() == self@,
            it.pos() == 0,
    {
        OptionIter { index: 0, chunk: self }
    }

    /// Turn the chunk into an iterator that walks every index from `0` to
    /// `N`, yielding the value moved out of each live slot and `None` for
    /// free ones.
    pub fn option_drain(self) -> (it: OptionDrain<A, N>)
        requires
            self.wf(),
        ensures
            it.wf(),
            it.remaining() == self@,
            it.pos() == 0,
    {
        OptionDrain { index: 0, chunk: self }
    }
}

impl<A: Clone, const N: usize> Clone for SparseChunk<A, N> {
    /// Clone slot by slot: the copy is live at exactly the same indices, and
    /// each copied value relates to the original through `A::clone`.
    fn clone(&self) -> (r: Self)
        ensures
            self.wf() ==> r.wf(),
            r@.len() == self@.len(),
            forall|i: int|
                0 <= i < self@.len() ==> ((#[trigger] r@[i]) is Some <==> self@[i] is Some),
            forall|i: int|
                0 <= i < self@.len() && self@[i] is Some ==> cloned::<A>(
                    self@[i]->0,
                    (#[trigger] r@[i])->0,
                ),
    {
        let r = SparseChunk { map: self.map.clone(), data: self.data.clone() };
        proof {
            assert forall|i: int| 0 <= i < self.data@.len() implies ((#[trigger] r.data@[i])
                is Some <==> self.data@[i] is Some) && (self.data@[i] is Some ==> cloned::<A>(
                self.data@[i]->0,
                r.data@[i]->0,
            )) by {
                assert(cloned::<Option<A>>(self.data@[i], r.data@[i]));
            }

        }
        r
    }
}

/// When the element type's clone returns values equal to their originals,
/// a sparse chunk clone's view equals the original's view.
pub proof fn lemma_clone_exact<A: Clone>(original: Seq<Option<A>>, copy: Seq<Option<A>>)
    requires
        copy.len() == original.len(),
        forall|i: int| 0 <= i < original.len() ==> ((#[trigger] copy[i]) is Some <==> original[i] is Some),
        forall|i: int|
            0 <= i < original.len() && original[i] is Some ==> cloned::<A>(
                original[i]->0,
                (#[trigger] copy[i])->0,
            ),
        forall|x: A, y: A| #[trigger] cloned::<A>(x, y) ==> x == y,
    ensures
        copy == original,
{
    assert forall|i: int| 0 <= i < original.len() implies copy[i] == original[i] by {
        if original[i] is Some {
            assert(cloned::<A>(original[i]->0, copy[i]->0));
        }
    }
    assert(copy =~= original);
}

/// An iterator over borrows of the live values of a [`SparseChunk`], in
/// ascending index order.
pub struct Iter<'a, A, const N: usize> {
    indices: crate::bitmap::Iter<N>,
    chunk: &'a SparseChunk<A, N>,
}

impl<'a, A, const N: usize> Iter<'a, A, N> {
    /// The slots being iterated over.
    pub closed spec fn chunk_view(&self) -> Seq<Option<A>> {
        self.chunk@
    }

    /// The position the scan has reached.
    pub closed spec fn pos(&self) -> int {
        self.indices.pos()
    }

    pub closed spec fn wf(&self) -> bool {
        &&& self.indices.wf()
        &&& self.chunk.wf()
        &&& self.indices.bits() == occupancy(self.chunk@)
    }

    /// Yield a borrow of the value at the smallest live index not yet
    /// visited, advancing past it.
    pub fn next(&mut self) -> (r: Option<&'a A>)
        requires
            old(self).wf(),
        ensures
            final(self).wf(),
            final(self).chunk_view() == old(self).chunk_view(),
            match r {
                Some(a) => exists|i: int|
                    #![auto]
                    old(self).pos() <= i < N && old(self).chunk_view()[i] == Some(*a) && (forall|
                        j: int,
                    |
                        old(self).pos() <= j < i ==> old(self).chunk_view()[j] is None) && final(self).pos() == i + 1,
                None => (forall|j: int|
                    old(self).pos() <= j < N ==> (#[trigger] old(self).chunk_view()[j]) is None)
                    && final(self).pos() == N,
            },
    {
        let ghost start = old(self).pos();
        match self.indices.next() {
            Some(index) => {
                proof {
                    assert forall|j: int| start <= j < index implies old(self).chunk_view()[j]
                        is None by {
                        assert(!old(self).indices.bits()[j]);
                        assert(occupancy(old(self).chunk_view())[j] == (old(
                            self,
                        ).chunk_view()[j] is Some));
                    }
                }
                match self.chunk.get(index) {
                    Some(a) => {
                        proof {
                            assert(start <= index < N && old(self).chunk_view()[index as int]
                                == Some(*a) && (forall|j: int|
                                start <= j < index ==> old(self).chunk_view()[j] is None)
                                && self.pos() == index + 1);
                        }
                        Some(a)
                    },
                    None => {
                        proof {
                            assert(old(self).indices.bits()[index as int]);
                            assert(false);
                        }
                        None
                    },
                }
            },
            None => {
                proof {
                    assert forall|j: int| start <= j < N implies old(self).chunk_view()[j]
                        is None by {
                        assert(!old(self).indices.bits()[j]);
                        assert(occupancy(old(self).chunk_view())[j] == (old(
                            self,
                        ).chunk_view()[j] is Some));
                    }
                }
                None
            },
        }
    }
}

/// An iterator over pairs of live index and borrowed value of a
/// [`SparseChunk`], in ascending index order.
pub struct Entries<'a, A, const N: usize> {
    indices: crate::bitmap::Iter<N>,
    chunk: &'a SparseChunk<A, N>,
}

impl<'a, A, const N: usize> Entries<'a, A, N> {
    /// The slots being iterated over.
    pub closed spec fn chunk_view(&self) -> Seq<Option<A>> {
        self.chunk@
    }

    /// The position the scan has reached.
    pub closed spec fn pos(&self) -> int {
        self.indices.pos()
    }

    pub closed spec fn wf(&self) -> bool {
        &&& self.indices.wf()
        &&& self.chunk.wf()
        &&& self.indices.bits() == occupancy(self.chunk@)
    }

    /// Yield the smallest live index not yet visited, paired with a borrow
    /// of its value, advancing past it.
    pub fn next(&mut self) -> (r: Option<(usize, &'a A)>)
        requires
            old(self).wf(),
        ensures
            final(self).wf(),
            final(self).chunk_view() == old(self).chunk_view(),
            match r {
                Some(pair) => {
                    &&& old(self).pos() <= pair.0 < N
                    &&& old(self).chunk_view()[pair.0 as int] == Some(*pair.1)
                    &&& forall|j: int|
                        old(self).pos() <= j < pair.0 ==> (#[trigger] old(self).chunk_view()[j])
                            is None
                    &&& final(self).pos() == pair.0 + 1
                },
                None => (forall|j: int|
                    old(self).pos() <= j < N ==> (#[trigger] old(self).chunk_view()[j]) is None)
                    && final(self).pos() == N,
            },
    {
        let ghost start = old(self).pos();
        match self.indices.next() {
            Some(index) => {
                proof {
                    assert forall|j: int| start <= j < index implies old(self).chunk_view()[j]
                        is None by {
                        assert(!old(self).indices.bits()[j]);
                        assert(occupancy(old(self).chunk_view())[j] == (old(
                            self,
                        ).chunk_view()[j] is Some));
                    }
                }
                match self.chunk.get(index) {
                    Some(a) => Some((index, a)),
                    None => {
                        proof {
                            assert(old(self).indices.bits()[index as int]);
                            assert(false);
                        }
                        None
                    },
                }
            },
            None => {
                proof {
                    assert forall|j: int| start <= j < N implies old(self).chunk_view()[j]
                        is None by {
                        assert(!old(self).indices.bits()[j]);
                        assert(occupancy(old(self).chunk_view())[j] == (old(
                            self,
                        ).chunk_view()[j] is Some));
                    }
                }
                None
            },
        }
    }
}

/// An iterator that removes and yields the live values of a [`SparseChunk`],
/// in ascending index order.
pub struct Drain<A, const N: usize> {
    chunk: SparseChunk<A, N>,
}

impl<A, const N: usize> Drain<A, N> {
    /// The slots not yet drained.
    pub closed spec fn remaining(&self) -> Seq<Option<A>> {
        self.chunk@
    }

    pub closed spec fn wf(&self) -> bool {
        self.chunk.wf()
    }

    /// Remove and yield the value at the smallest remaining live index;
    /// `None` when no live slot remains.
    pub fn next(&mut self) -> (r: Option<A>)
        requires
            old(self).wf(),
        ensures
            final(self).wf(),
            match r {
                Some(v) => exists|i: int|
                    #![auto]
                    0 <= i < N && old(self).remaining()[i] == Some(v) && (forall|j: int|
                        0 <= j < i ==> old(self).remaining()[j] is None) && final(self).remaining()
                        == old(self).remaining().update(i, None),
                None => (forall|i: int|
                    0 <= i < N ==> (#[trigger] old(self).remaining()[i]) is None) && final(self).remaining() == old(self).remaining(),
            },
    {
        self.chunk.pop()
    }
}

/// An iterator over every index of a [`SparseChunk`] in order, yielding
/// `Some` borrow for live slots and `None` for free ones.
pub struct OptionIter<'a, A, const N: usize> {
    index: usize,
    chunk: &'a SparseChunk<A, N>,
}

impl<'a, A, const N: usize> OptionIter<'a, A, N> {
    /// The slots being iterated over.
    pub closed spec fn chunk_view(&self) -> Seq<Option<A>> {
        self.chunk@
    }

    /// The next index to visit.
    pub closed spec fn pos(&self) -> int {
        self.index as int
    }

    pub closed spec fn wf(&self) -> bool {
        &&& self.chunk.wf()
        &&& self.index <= N
    }

    /// Yield the state of the next slot, advancing past it; `None` once all
    /// `N` slots have been visited.
    pub fn next(&mut self) -> (r: Option<Option<&'a A>>)
        requires
            old(self).wf(),
        ensures
            final(self).wf(),
            final(self).chunk_view() == old(self).chunk_view(),
            match r {
                Some(o) => {
                    &&& old(self).pos() < N
                    &&& final(self).pos() == old(self).pos() + 1
                    &&& match o {
                        Some(a) => old(self).chunk_view()[old(self).pos()] == Some(*a),
                        None => old(self).chunk_view()[old(self).pos()] is None,
                    }
                },
                None => old(self).pos() == N && final(self).pos() == N,
            },
    {
        if self.index < N {
            let r = self.chunk.get(self.index);
            self.index = self.index + 1;
            Some(r)
        } else {
            None
        }
    }
}

/// An iterator over every index of a [`SparseChunk`] in order, moving the
/// value out of each live slot and yielding `None` for free ones.
pub struct OptionDrain<A, const N: usize> {
    index: usize,
    chunk: SparseChunk<A, N>,
}

impl<A, const N: usize> OptionDrain<A, N> {
    /// The slots not yet visited, in their current state.
    pub closed spec fn remaining(&self) -> Seq<Option<A>> {
        self.chunk@
    }

    /// The next index to visit.
    pub closed spec fn pos(&self) -> int {
        self.index as int
    }

    pub closed spec fn wf(&self) -> bool {
        &&& self.chunk.wf()
        &&& self.index <= N
    }

    /// Move out and yield the state of the next slot, advancing past it;
    /// `None` once all `N` slots have been visited.
    pub fn next(&mut self) -> (r: Option<Option<A>>)
        requires
            old(self).wf(),
        ensures
            final(self).wf(),
            match r {
                Some(o) => {
                    &&& old(self).pos() < N
                    &&& final(self).pos() == old(self).pos() + 1
                    &&& o == old(self).remaining()[old(self).pos()]
                    &&& final(self).remaining() == old(self).remaining().update(
                        old(self).pos(),
                        None,
                    )
                },
                None => old(self).pos() == N && final(self).pos() == N && final(self).remaining()
                    == old(self).remaining(),
            },
    {
        if self.index < N {
            let r = self.chunk.remove(self.index);
            self.index = self.index + 1;
            Some(r)
        } else {
            None
        }
    }
}




} // verus!
