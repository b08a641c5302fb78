//! A fixed capacity ring buffer.
//!
//! See [`RingBuffer`].

use vstd::prelude::*;
use vstd::std_specs::cmp::PartialOrdSpec;

pub mod index;

use index::RawIndex;

verus! {

broadcast use crate::ring_buffer::index::lemma_raw_index_bounds;

/// A fixed capacity wrap-around deque over `N` slots.
///
/// Logical index `k` lives in physical slot `(origin + k) mod N`, so pushes
/// and pops at either end only move the `origin` or `length` metadata and
/// never slide elements around. The price is that the live elements are not
/// contiguous in memory: there is no slice view, only indexed access and
/// iteration.
///
/// A free slot holds `None`, a live slot `Some`; the structural invariant
/// ties the `(origin, length)` metadata to the slot states.
pub struct RingBuffer<A, const N: usize> {
    origin: RawIndex<N>,
    length: usize,
    data: Vec<Option<A>>,
}

impl<A, const N: usize> View for RingBuffer<A, N> {
    type V = Seq<A>;

    /// The live elements, in logical order.
    closed spec fn view(&self) -> Seq<A> {
        Seq::new(self.length as nat, |k: int| self.data@[self.slot_of(k)]->0)
    }
}

impl<A, const N: usize> RingBuffer<A, N> {
    /// The physical slot at offset `k` from the physical index `origin`.
    pub closed spec fn slot_at(origin: int, k: int) -> int {
        if origin + k < N {
            origin + k
        } else {
            origin + k - N
        }
    }

    /// The physical slot holding logical index `k`.
    pub closed spec fn slot_of(&self, k: int) -> int {
        Self::slot_at(self.origin.value(), k)
    }

    /// Distinct offsets below `N` land in distinct slots, all in range.
    proof fn lemma_slot_at_bijective(origin: int)
        requires
            0 <= origin < N,
        ensures
            forall|k: int| 0 <= k < N ==> 0 <= #[trigger] Self::slot_at(origin, k) < N,
            forall|j1: int, j2: int|
                0 <= j1 < N && 0 <= j2 < N && j1 != j2 ==> #[trigger] Self::slot_at(origin, j1)
                    != #[trigger] Self::slot_at(origin, j2),
    {
    }

    /// The logical index stored in physical slot `i`.
    pub closed spec fn log_of(&self, i: int) -> int {
        if i >= self.origin.value() {
            i - self.origin.value()
        } else {
            i + N - self.origin.value()
        }
    }

    /// Structural invariant: the metadata is in range and a slot is live
    /// exactly when its logical index lies below `length`.
    pub closed spec fn wf(&self) -> bool {
        &&& 0 < N
        &&& self.origin.wf()
        &&& self.length <= N
        &&& self.data@.len() == N
        &&& forall|i: int|
            0 <= i < N ==> ((#[trigger] self.data@[i]) is Some <==> self.log_of(i) < self.length)
    }

    /// Every ring buffer holds at most `N` elements.
    pub proof fn lemma_len_within_capacity(&self)
        requires
            self.wf(),
        ensures
            self@.len() <= N,
    {
    }

    /// Construct an empty ring buffer.
    pub fn new() -> (r: Self)
        requires
            0 < N,
        ensures
            r.wf(),
            r@ == Seq::<A>::empty(),
    {
        let mut data: Vec<Option<A>> = Vec::new();
        let mut k: usize = 0;
        while k < N
            invariant
                data@.len() == k,
                k <= N,
                forall|i: int| 0 <= i < k ==> (#[trigger] data@[i]) is None,
            decreases N - k,
        {
            data.push(None);
            k = k + 1;
        }
        let r = RingBuffer { origin: RawIndex::new(0), length: 0, data };
        proof {
            assert(r@ =~= Seq::<A>::empty());
        }
        r
    }

    /// The number of live elements.
    pub fn len(&self) -> (r: usize)
        requires
            self.wf(),
        ensures
            r == self@.len(),
    {
        self.length
    }

    /// Whether the buffer holds no elements.
    pub fn is_empty(&self) -> (r: bool)
        requires
            self.wf(),
        ensures
            r == (self@.len() == 0),
    {
        self.length == 0
    }

    /// Whether the buffer holds `N` elements.
    pub fn is_full(&self) -> (r: bool)
        requires
            self.wf(),
        ensures
            r == (self@.len() == N),
    {
        self.length == N
    }

    /// Push an element onto the back.
    pub fn push_back(&mut self, value: A)
        requires
            old(self).wf(),
            old(self)@.len() < N,
        ensures
            final(self).wf(),
            final(self)@ == old(self)@.push(value),
    {
        let slot = self.origin.add(self.length).to_usize();
        self.data[slot] = Some(value);
        self.length = self.length + 1;
        proof {
            assert(self@ =~= old(self)@.push(value));
        }
    }

    /// Push an element onto the front.
    pub fn push_front(&mut self, value: A)
        requires
            old(self).wf(),
            old(self)@.len() < N,
        ensures
            final(self).wf(),
            final(self)@ == old(self)@.insert(0, value),
    {
        let slot = self.origin.dec().to_usize();
        self.data[slot] = Some(value);
        self.length = self.length + 1;
        proof {
            assert forall|k: int| 0 <= k < self.length implies self@[k] == old(self)@.insert(
                0,
                value,
            )[k] by {
                if k > 0 {
                    assert(self.slot_of(k) == old(self).slot_of(k - 1));
                }
            }
            assert(self@ =~= old(self)@.insert(0, value));
        }
    }

    /// Pop an element from the front; `None` when the buffer is empty.
    pub fn pop_front(&mut self) -> (r: Option<A>)
        requires
            old(self).wf(),
        ensures
            final(self).wf(),
            match r {
                Some(v) => old(self)@.len() > 0 && v == old(self)@.first() && final(self)@ == old(
                    self,
                )@.drop_first(),
                None => old(self)@.len() == 0 && *final(self) == *old(self),
            },
    {
        if self.length == 0 {
            None
        } else {
            let prev = self.origin.inc();
            let v = self.data[prev.to_usize()].take();
            self.length = self.length - 1;
            proof {
                assert forall|k: int| 0 <= k < self.length implies self@[k] == old(
                    self,
                )@.drop_first()[k] by {
                    assert(self.slot_of(k) == old(self).slot_of(k + 1));
                }
                assert(self@ =~= old(self)@.drop_first());
            }
            v
        }
    }

    /// Pop an element from the back; `None` when the buffer is empty.
    pub fn pop_back(&mut self) -> (r: Option<A>)
        requires
            old(self).wf(),
        ensures
            final(self).wf(),
            match r {
                Some(v) => old(self)@.len() > 0 && v == old(self)@.last() && final(self)@ == old(
                    self,
                )@.drop_last(),
                None => old(self)@.len() == 0 && *final(self) == *old(self),
            },
    {
        if self.length == 0 {
            None
        } else {
            let slot = self.origin.add(self.length - 1).to_usize();
            let v = self.data[slot].take();
            self.length = self.length - 1;
            proof {
                assert(self@ =~= old(self)@.drop_last());
            }
            v
        }
    }

    /// Borrow the element at logical index `index`; `None` when `index` is
    /// out of range.
    pub fn get(&self, index: usize) -> (r: Option<&A>)
        requires
            self.wf(),
        ensures
            match r {
                Some(a) => index < self@.len() && *a == self@[index as int],
                None => index >= self@.len(),
            },
    {
        if index < self.length {
            self.data[self.origin.add(index).to_usize()].as_ref()
        } else {
            None
        }
    }

    /// Move the `count` live logical positions `[src, src + count)` to
    /// `[dst, dst + count)`, leaving vacated positions free. Each move
    /// crosses the wrap point as needed; the traversal order is chosen so
    /// that no unmoved position is overwritten.
    fn move_logical_block(&mut self, src: usize, dst: usize, count: usize)
        requires
            0 < N,
            old(self).origin.wf(),
            old(self).data@.len() == N,
            src + count <= N,
            dst + count <= N,
            forall|j: int|
                src <= j < src + count ==> old(self).data@[#[trigger] Self::slot_at(
                    old(self).origin.value(),
                    j,
                )] is Some,
        ensures
            final(self).origin == old(self).origin,
            final(self).length == old(self).length,
            final(self).data@.len() == N,
            forall|j: int|
                dst <= j < dst + count ==> final(self).data@[#[trigger] Self::slot_at(
                    old(self).origin.value(),
                    j,
                )] == old(self).data@[Self::slot_at(old(self).origin.value(), j - dst + src)],
            forall|j: int|
                0 <= j < N && !(dst <= j < dst + count) && !(src <= j < src + count)
                    ==> final(self).data@[#[trigger] Self::slot_at(old(self).origin.value(), j)]
                    == old(self).data@[Self::slot_at(old(self).origin.value(), j)],
            forall|j: int|
                src <= j < src + count && !(dst <= j < dst + count) ==> final(self).data@[
                #[trigger] Self::slot_at(old(self).origin.value(), j)] is None,
    {
        let ghost o = self.origin.value();
        proof {
            Self::lemma_slot_at_bijective(o);
        }
        if dst < src {
            let mut k: usize = 0;
            while k < count
                invariant
                    0 < N,
                    self.origin == old(self).origin,
                    self.length == old(self).length,
                    self.origin.wf(),
                    o == self.origin.value(),
                    self.data@.len() == N,
                    k <= count,
                    src + count <= N,
                    dst + count <= N,
                    dst < src,
                    forall|k2: int| 0 <= k2 < N ==> 0 <= #[trigger] Self::slot_at(o, k2) < N,
                    forall|j1: int, j2: int|
                        0 <= j1 < N && 0 <= j2 < N && j1 != j2 ==> #[trigger] Self::slot_at(o, j1)
                            != #[trigger] Self::slot_at(o, j2),
                    forall|j: int|
                        src <= j < src + count ==> old(self).data@[#[trigger] Self::slot_at(o, j)]
                            is Some,
                    forall|j: int|
                        dst <= j < dst + k ==> self.data@[#[trigger] Self::slot_at(o, j)] == old(
                            self,
                        ).data@[Self::slot_at(o, j - dst + src)],
                    forall|j: int|
                        src + k <= j < src + count ==> self.data@[#[trigger] Self::slot_at(o, j)]
                            == old(self).data@[Self::slot_at(o, j)],
                    forall|j: int|
                        0 <= j < N && !(dst <= j < dst + k) && !(src <= j < src + count)
                            ==> self.data@[#[trigger] Self::slot_at(o, j)] == old(self).data@[
                            Self::slot_at(o, j)],
                    forall|j: int|
                        src <= j < src + k && !(dst <= j < dst + k) ==> self.data@[
                        #[trigger] Self::slot_at(o, j)] is None,
                decreases count - k,
            {
                let from = self.origin.add(src + k).to_usize();
                let to = self.origin.add(dst + k).to_usize();
                proof {
                    assert(from == Self::slot_at(o, src + k));
                    assert(to == Self::slot_at(o, dst + k));
                }
                let v = self.data[from].take();
                self.data[to] = v;
                k = k + 1;
            }
        } else if dst > src {
            let mut k: usize = count;
            while k > 0
                invariant
                    0 < N,
                    self.origin == old(self).origin,
                    self.length == old(self).length,
                    self.origin.wf(),
                    o == self.origin.value(),
                    self.data@.len() == N,
                    k <= count,
                    src + count <= N,
                    dst + count <= N,
                    dst > src,
                    forall|k2: int| 0 <= k2 < N ==> 0 <= #[trigger] Self::slot_at(o, k2) < N,
                    forall|j1: int, j2: int|
                        0 <= j1 < N && 0 <= j2 < N && j1 != j2 ==> #[trigger] Self::slot_at(o, j1)
                            != #[trigger] Self::slot_at(o, j2),
                    forall|j: int|
                        src <= j < src + count ==> old(self).data@[#[trigger] Self::slot_at(o, j)]
                            is Some,
                    forall|j: int|
                        dst + k <= j < dst + count ==> self.data@[#[trigger] Self::slot_at(o, j)]
                            == old(self).data@[Self::slot_at(o, j - dst + src)],
                    forall|j: int|
                        src <= j < src + k ==> self.data@[#[trigger] Self::slot_at(o, j)] == old(
                            self,
                        ).data@[Self::slot_at(o, j)],
                    forall|j: int|
                        0 <= j < N && !(dst + k <= j < dst + count) && !(src <= j < src + count)
                            ==> self.data@[#[trigger] Self::slot_at(o, j)] == old(self).data@[
                            Self::slot_at(o, j)],
                    forall|j: int|
                        src + k <= j < src + count && !(dst + k <= j < dst + count)
                            ==> self.data@[#[trigger] Self::slot_at(o, j)] is None,
                decreases k,
            {
                k = k - 1;
                let from = self.origin.add(src + k).to_usize();
                let to = self.origin.add(dst + k).to_usize();
                proof {
                    assert(from == Self::slot_at(o, src + k));
                    assert(to == Self::slot_at(o, dst + k));
                }
                let v = self.data[from].take();
                self.data[to] = v;
            }
        }
    }

    /// Insert an element at logical index `index`, shifting the shorter side
    /// of the buffer around the wrap point.
    #[verifier::rlimit(100)]
    pub fn insert(&mut self, index: usize, value: A)
        requires
            old(self).wf(),
            index <= old(self)@.len(),
            old(self)@.len() < N,
        ensures
            final(self).wf(),
            final(self)@ == old(self)@.insert(index as int, value),
    {
        let len = self.length;
        if index < len - index {
            let ghost o0 = self.origin.value();
            let _ = self.origin.dec();
            let ghost o1 = self.origin.value();
            proof {
                Self::lemma_slot_at_bijective(o0);
                Self::lemma_slot_at_bijective(o1);
                assert(forall|j: int|
                    0 <= j < N ==> #[trigger] Self::slot_at(o1, j + 1) == Self::slot_at(o0, j));
                assert forall|j: int|
                    1 <= j < index + 1 implies self.data@[#[trigger] Self::slot_at(o1, j)]
                    is Some by {
                    assert(Self::slot_at(o1, j) == Self::slot_at(o0, j - 1));
                    assert(old(self).log_of(Self::slot_at(o0, j - 1)) == j - 1);
                }
            }
            self.move_logical_block(1, 0, index);
            let slot = self.origin.add(index).to_usize();
            proof {
                assert(slot == Self::slot_at(o1, index as int));
            }
            self.data[slot] = Some(value);
            self.length = len + 1;
            proof {
                assert forall|i: int| 0 <= i < N implies ((#[trigger] self.data@[i]) is Some
                    <==> self.log_of(i) < self.length) by {
                    let j = self.log_of(i);
                    assert(Self::slot_at(o1, j) == i);
                    if j < index {
                        assert(self.data@[Self::slot_at(o1, j)] == old(self).data@[Self::slot_at(
                            o0,
                            j,
                        )]);
                        assert(old(self).log_of(Self::slot_at(o0, j)) == j);
                    } else if j > index {
                        assert(self.data@[Self::slot_at(o1, j)] == old(self).data@[Self::slot_at(
                            o1,
                            j,
                        )]);
                        assert(Self::slot_at(o1, j) == Self::slot_at(o0, j - 1));
                        assert(old(self).log_of(Self::slot_at(o0, j - 1)) == j - 1);
                    }
                }
                assert forall|k: int| 0 <= k < self.length implies self@[k] == old(self)@.insert(
                    index as int,
                    value,
                )[k] by {
                    if k < index {
                        assert(self.data@[Self::slot_at(o1, k)] == old(self).data@[Self::slot_at(
                            o0,
                            k,
                        )]);
                    } else if k > index {
                        assert(self.data@[Self::slot_at(o1, k)] == old(self).data@[Self::slot_at(
                            o1,
                            k,
                        )]);
                        assert(Self::slot_at(o1, k) == Self::slot_at(o0, k - 1));
                    }
                }
                assert(self@ =~= old(self)@.insert(index as int, value));
            }
        } else {
            let ghost o0 = self.origin.value();
            proof {
                Self::lemma_slot_at_bijective(o0);
                assert forall|j: int|
                    index <= j < len implies self.data@[#[trigger] Self::slot_at(o0, j)]
                    is Some by {
                    assert(old(self).log_of(Self::slot_at(o0, j)) == j);
                }
            }
            self.move_logical_block(index, index + 1, len - index);
            let slot = self.origin.add(index).to_usize();
            proof {
                assert(slot == Self::slot_at(o0, index as int));
                if (index as int) == len {
                    assert(old(self).log_of(Self::slot_at(o0, index as int)) == index);
                }
            }
            self.data[slot] = Some(value);
            self.length = len + 1;
            proof {
                assert forall|i: int| 0 <= i < N implies ((#[trigger] self.data@[i]) is Some
                    <==> self.log_of(i) < self.length) by {
                    let j = self.log_of(i);
                    assert(Self::slot_at(o0, j) == i);
                    if j < index {
                        assert(self.data@[Self::slot_at(o0, j)] == old(self).data@[Self::slot_at(
                            o0,
                            j,
                        )]);
                        assert(old(self).log_of(Self::slot_at(o0, j)) == j);
                    } else if index < j && j <= len {
                        assert(self.data@[Self::slot_at(o0, j)] == old(self).data@[Self::slot_at(
                            o0,
                            j - 1,
                        )]);
                        assert(old(self).log_of(Self::slot_at(o0, j - 1)) == j - 1);
                    } else if j > len {
                        assert(self.data@[Self::slot_at(o0, j)] == old(self).data@[Self::slot_at(
                            o0,
                            j,
                        )]);
                        assert(old(self).log_of(Self::slot_at(o0, j)) == j);
                    }
                }
                assert forall|k: int| 0 <= k < self.length implies self@[k] == old(self)@.insert(
                    index as int,
                    value,
                )[k] by {
                    if k < index {
                        assert(self.data@[Self::slot_at(o0, k)] == old(self).data@[Self::slot_at(
                            o0,
                            k,
                        )]);
                    } else if k > index {
                        assert(self.data@[Self::slot_at(o0, k)] == old(self).data@[Self::slot_at(
                            o0,
                            k - 1,
                        )]);
                    }
                }
                assert(self@ =~= old(self)@.insert(index as int, value));
            }
        }
    }

    /// Remove and return the element at logical index `index`, closing the
    /// gap from the shorter side.
    #[verifier::rlimit(100)]
    pub fn remove(&mut self, index: usize) -> (r: A)
        requires
            old(self).wf(),
            index < old(self)@.len(),
        ensures
            final(self).wf(),
            r == old(self)@[index as int],
            final(self)@ == old(self)@.remove(index as int),
    {
        let len = self.length;
        let slot = self.origin.add(index).to_usize();
        let ghost o0 = self.origin.value();
        proof {
            Self::lemma_slot_at_bijective(o0);
            assert(slot == Self::slot_at(o0, index as int));
            assert(old(self).log_of(Self::slot_at(o0, index as int)) == index);
        }
        let v = self.data[slot].take();
        if index < len - index - 1 {
            proof {
                assert forall|j: int|
                    0 <= j < index implies self.data@[#[trigger] Self::slot_at(o0, j)] is Some by {
                    assert(old(self).log_of(Self::slot_at(o0, j)) == j);
                }
            }
            self.move_logical_block(0, 1, index);
            let _ = self.origin.inc();
            let ghost o1 = self.origin.value();
            self.length = len - 1;
            proof {
                Self::lemma_slot_at_bijective(o1);
                assert(forall|j: int|
                    0 <= j < N ==> #[trigger] Self::slot_at(o0, j + 1) == Self::slot_at(o1, j));
                assert forall|i: int| 0 <= i < N implies ((#[trigger] self.data@[i]) is Some
                    <==> self.log_of(i) < self.length) by {
                    let j = self.log_of(i);
                    assert(Self::slot_at(o1, j) == i);
                    assert(Self::slot_at(o1, j) == Self::slot_at(o0, j + 1));
                    if j < index {
                        assert(self.data@[Self::slot_at(o0, j + 1)] == old(self).data@[
                            Self::slot_at(o0, j)]);
                        assert(old(self).log_of(Self::slot_at(o0, j)) == j);
                    } else if j < N - 1 {
                        assert(self.data@[Self::slot_at(o0, j + 1)] == old(self).data@[
                            Self::slot_at(o0, j + 1)]);
                        assert(old(self).log_of(Self::slot_at(o0, j + 1)) == j + 1);
                    } else {
                        assert(Self::slot_at(o1, j) == Self::slot_at(o0, 0));
                        if index > 0 {
                            assert(self.data@[Self::slot_at(o0, 0)] is None);
                        }
                    }
                }
                assert forall|k: int| 0 <= k < self.length implies self@[k] == old(self)@.remove(
                    index as int,
                )[k] by {
                    assert(Self::slot_at(o1, k) == Self::slot_at(o0, k + 1));
                    if k < index {
                        assert(self.data@[Self::slot_at(o0, k + 1)] == old(self).data@[
                            Self::slot_at(o0, k)]);
                    } else {
                        assert(self.data@[Self::slot_at(o0, k + 1)] == old(self).data@[
                            Self::slot_at(o0, k + 1)]);
                    }
                }
                assert(self@ =~= old(self)@.remove(index as int));
            }
        } else {
            proof {
                assert forall|j: int|
                    index + 1 <= j < len implies self.data@[#[trigger] Self::slot_at(o0, j)]
                    is Some by {
                    assert(old(self).log_of(Self::slot_at(o0, j)) == j);
                }
            }
            self.move_logical_block(index + 1, index, len - index - 1);
            self.length = len - 1;
            proof {
                assert forall|i: int| 0 <= i < N implies ((#[trigger] self.data@[i]) is Some
                    <==> self.log_of(i) < self.length) by {
                    let j = self.log_of(i);
                    assert(Self::slot_at(o0, j) == i);
                    if j < index {
                        assert(self.data@[Self::slot_at(o0, j)] == old(self).data@[Self::slot_at(
                            o0,
                            j,
                        )]);
                        assert(old(self).log_of(Self::slot_at(o0, j)) == j);
                    } else if index <= j < len - 1 {
                        assert(self.data@[Self::slot_at(o0, j)] == old(self).data@[Self::slot_at(
                            o0,
                            j + 1,
                        )]);
                        assert(old(self).log_of(Self::slot_at(o0, j + 1)) == j + 1);
                    } else {
                        assert(self.data@[Self::slot_at(o0, j)] is None);
                        if j >= len {
                            assert(old(self).log_of(Self::slot_at(o0, j)) == j);
                        }
                    }
                }
                assert forall|k: int| 0 <= k < self.length implies self@[k] == old(self)@.remove(
                    index as int,
                )[k] by {
                    if k < index {
                        assert(self.data@[Self::slot_at(o0, k)] == old(self).data@[Self::slot_at(
                            o0,
                            k,
                        )]);
                    } else {
                        assert(self.data@[Self::slot_at(o0, k)] == old(self).data@[Self::slot_at(
                            o0,
                            k + 1,
                        )]);
                    }
                }
                assert(self@ =~= old(self)@.remove(index as int));
            }
        }
        v.unwrap()
    }

    /// Replace the element at logical index `index`, returning the previous
    /// element; `None` when `index` is out of range, leaving the buffer
    /// unchanged.
    pub fn set(&mut self, index: usize, value: A) -> (r: Option<A>)
        requires
            old(self).wf(),
        ensures
            final(self).wf(),
            match r {
                Some(v) => index < old(self)@.len() && v == old(self)@[index as int]
                    && final(self)@ == old(self)@.update(index as int, value),
                None => index >= old(self)@.len() && *final(self) == *old(self),
            },
    {
        if index < self.length {
            let slot = self.origin.add(index).to_usize();
            let prev = self.data[slot].take();
            self.data[slot] = Some(value);
            proof {
                assert(self@ =~= old(self)@.update(index as int, value));
            }
            prev
        } else {
            None
        }
    }
    /// Construct a ring buffer with a single element.
    pub fn unit(value: A) -> (r: Self)
        requires
            1 <= N,
        ensures
            r.wf(),
            r@ =~= seq![value],
    {
        let mut r = Self::new();
        r.push_back(value);
        r
    }

    /// Construct a ring buffer with two elements.
    pub fn pair(left: A, right: A) -> (r: Self)
        requires
            2 <= N,
        ensures
            r.wf(),
            r@ =~= seq![left, right],
    {
        let mut r = Self::new();
        r.push_back(left);
        r.push_back(right);
        r
    }

    /// Construct a ring buffer holding the elements of `values`, in order.
    pub fn from_iter(values: Vec<A>) -> (r: Self)
        requires
            0 < N,
            values@.len() <= N,
        ensures
            r.wf(),
            r@ == values@,
    {
        let mut source = values;
        let mut r = Self::new();
        proof {
            assert(values@.take(values@.len() as int) =~= values@);
            assert(values@.skip(values@.len() as int) =~= Seq::<A>::empty());
        }
        while source.len() > 0
            invariant
                r.wf(),
                values@.len() <= N,
                source@.len() <= values@.len(),
                source@ == values@.take(source@.len() as int),
                r@ == values@.skip(source@.len() as int),
            decreases source@.len(),
        {
            let v = source.pop();
            r.push_front(v.unwrap());
            proof {
                assert(source@ =~= values@.take(source@.len() as int));
                assert(r@ =~= values@.skip(source@.len() as int));
            }
        }
        proof {
            assert(r@ =~= values@);
        }
        r
    }

    /// Construct a ring buffer by moving the next `count` elements out of
    /// the front of `source`.
    pub fn collect_from(source: &mut Vec<A>, count: usize) -> (r: Self)
        requires
            0 < N,
            count <= old(source)@.len(),
            count <= N,
        ensures
            r.wf(),
            r@ == old(source)@.take(count as int),
            final(source)@ == old(source)@.skip(count as int),
    {
        let mut r = Self::new();
        let mut k: usize = 0;
        while k < count
            invariant
                r.wf(),
                k <= count,
                count <= N,
                count <= old(source)@.len(),
                r@ == old(source)@.take(k as int),
                source@ == old(source)@.skip(k as int),
            decreases count - k,
        {
            let v = source.remove(0);
            r.push_back(v);
            proof {
                assert(r@ =~= old(source)@.take(k + 1));
                assert(source@ =~= old(source)@.skip(k + 1));
            }
            k = k + 1;
        }
        r
    }

    /// Construct a ring buffer by moving the first `count` elements out of
    /// the front of `other`, leaving the rest in place.
    pub fn from_front(other: &mut Self, count: usize) -> (r: Self)
        requires
            old(other).wf(),
            count <= old(other)@.len(),
        ensures
            r.wf(),
            final(other).wf(),
            r@ == old(other)@.take(count as int),
            final(other)@ == old(other)@.skip(count as int),
    {
        let mut r = Self::new();
        r.drain_from_front(other, count);
        r
    }

    /// Construct a ring buffer by moving the last `count` elements out of
    /// the back of `other`, leaving the rest in place.
    pub fn from_back(other: &mut Self, count: usize) -> (r: Self)
        requires
            old(other).wf(),
            count <= old(other)@.len(),
        ensures
            r.wf(),
            final(other).wf(),
            r@ == old(other)@.skip(old(other)@.len() - count),
            final(other)@ == old(other)@.take(old(other)@.len() - count),
    {
        let mut r = Self::new();
        r.drain_from_back(other, count);
        proof {
            assert(r@ =~= old(other)@.skip(old(other)@.len() - count));
        }
        r
    }

    /// Construct a ring buffer by moving every element out of `other`,
    /// which is left empty.
    pub fn drain_from(other: &mut Self) -> (r: Self)
        requires
            old(other).wf(),
        ensures
            r.wf(),
            final(other).wf(),
            r@ == old(other)@,
            final(other)@ == Seq::<A>::empty(),
    {
        let mut r = Self::new();
        r.append(other);
        proof {
            assert(r@ =~= old(other)@);
        }
        r
    }

    /// Move all of `other`'s elements to the back of `self`, in order.
    pub fn append(&mut self, other: &mut Self)
        requires
            old(self).wf(),
            old(other).wf(),
            old(self)@.len() + old(other)@.len() <= N,
        ensures
            final(self).wf(),
            final(other).wf(),
            final(self)@ == old(self)@ + old(other)@,
            final(other)@ == Seq::<A>::empty(),
    {
        let n = other.len();
        let mut k: usize = 0;
        while k < n
            invariant
                self.wf(),
                other.wf(),
                k <= n,
                n == old(other)@.len(),
                old(self)@.len() + n <= N,
                self@ == old(self)@ + old(other)@.take(k as int),
                other@ == old(other)@.skip(k as int),
            decreases n - k,
        {
            let v = other.pop_front();
            self.push_back(v.unwrap());
            proof {
                assert(old(other)@.skip(k as int).drop_first() =~= old(other)@.skip(k + 1));
                assert((old(self)@ + old(other)@.take(k as int)).push(old(other)@[k as int]) =~= old(
                    self,
                )@ + old(other)@.take(k + 1));
            }
            k = k + 1;
        }
        proof {
            assert(self@ =~= old(self)@ + old(other)@);
            assert(other@ =~= Seq::<A>::empty());
        }
    }

    /// Move the first `count` elements of `other` to the back of `self`,
    /// keeping their order.
    pub fn drain_from_front(&mut self, other: &mut Self, count: usize)
        requires
            old(self).wf(),
            old(other).wf(),
            count <= old(other)@.len(),
            old(self)@.len() + count <= N,
        ensures
            final(self).wf(),
            final(other).wf(),
            final(self)@ == old(self)@ + old(other)@.take(count as int),
            final(other)@ == old(other)@.skip(count as int),
    {
        let mut k: usize = 0;
        while k < count
            invariant
                self.wf(),
                other.wf(),
                k <= count,
                count <= old(other)@.len(),
                old(self)@.len() + count <= N,
                self@ == old(self)@ + old(other)@.take(k as int),
                other@ == old(other)@.skip(k as int),
            decreases count - k,
        {
            let v = other.pop_front();
            self.push_back(v.unwrap());
            proof {
                assert(old(other)@.skip(k as int).drop_first() =~= old(other)@.skip(k + 1));
                assert((old(self)@ + old(other)@.take(k as int)).push(old(other)@[k as int]) =~= old(
                    self,
                )@ + old(other)@.take(k + 1));
            }
            k = k + 1;
        }
    }

    /// Move the last `count` elements of `other` to the front of `self`,
    /// keeping their order.
    pub fn drain_from_back(&mut self, other: &mut Self, count: usize)
        requires
            old(self).wf(),
            old(other).wf(),
            count <= old(other)@.len(),
            old(self)@.len() + count <= N,
        ensures
            final(self).wf(),
            final(other).wf(),
            final(self)@ == old(other)@.skip(old(other)@.len() - count) + old(self)@,
            final(other)@ == old(other)@.take(old(other)@.len() - count),
    {
        let mut k: usize = 0;
        while k < count
            invariant
                self.wf(),
                other.wf(),
                k <= count,
                count <= old(other)@.len(),
                old(self)@.len() + count <= N,
                self@ == old(other)@.subrange(old(other)@.len() - k, old(other)@.len() as int)
                    + old(self)@,
                other@ == old(other)@.take(old(other)@.len() - k),
            decreases count - k,
        {
            let v = other.pop_back();
            self.push_front(v.unwrap());
            proof {
                let m = old(other)@.len() as int;
                assert(old(other)@.take(m - k).drop_last() =~= old(other)@.take(m - (k + 1)));
                assert((old(other)@.subrange(m - k, m) + old(self)@).insert(
                    0,
                    old(other)@[m - (k + 1)],
                ) =~= old(other)@.subrange(m - (k + 1), m) + old(self)@);
            }
            k = k + 1;
        }
    }

    /// Discard the first `count` elements, keeping `[count, len)`.
    pub fn drop_left(&mut self, count: usize)
        requires
            old(self).wf(),
            count <= old(self)@.len(),
        ensures
            final(self).wf(),
            final(self)@ == old(self)@.skip(count as int),
    {
        let mut k: usize = 0;
        while k < count
            invariant
                self.wf(),
                k <= count,
                count <= old(self)@.len(),
                self@ == old(self)@.skip(k as int),
            decreases count - k,
        {
            let v = self.pop_front();
            proof {
                assert(old(self)@.skip(k as int).drop_first() =~= old(self)@.skip(k + 1));
            }
            k = k + 1;
        }
    }

    /// Discard everything from index `count` on, keeping `[0, count)`.
    pub fn drop_right(&mut self, count: usize)
        requires
            old(self).wf(),
            count <= old(self)@.len(),
        ensures
            final(self).wf(),
            final(self)@ == old(self)@.take(count as int),
    {
        let n = self.length;
        let mut k: usize = n;
        proof {
            assert(old(self)@.take(n as int) =~= old(self)@);
        }
        while k > count
            invariant
                self.wf(),
                count <= k <= n,
                n == old(self)@.len(),
                self@ == old(self)@.take(k as int),
            decreases k,
        {
            let v = self.pop_back();
            proof {
                assert(old(self)@.take(k as int).drop_last() =~= old(self)@.take(k - 1));
            }
            k = k - 1;
        }
    }

    /// Split the buffer at `index`: the returned buffer takes `[index, len)`,
    /// `self` keeps `[0, index)`.
    pub fn split_off(&mut self, index: usize) -> (r: Self)
        requires
            old(self).wf(),
            index <= old(self)@.len(),
        ensures
            final(self).wf(),
            r.wf(),
            final(self)@ == old(self)@.take(index as int),
            r@ == old(self)@.skip(index as int),
    {
        let mut out = Self::new();
        let n = self.length;
        let mut k: usize = n;
        proof {
            assert(old(self)@.take(n as int) =~= old(self)@);
            assert(old(self)@.skip(n as int) =~= Seq::<A>::empty());
        }
        while k > index
            invariant
                self.wf(),
                out.wf(),
                index <= k <= n,
                n == old(self)@.len(),
                n <= N,
                self@ == old(self)@.take(k as int),
                out@ == old(self)@.skip(k as int),
            decreases k,
        {
            let v = self.pop_back();
            out.push_front(v.unwrap());
            proof {
                assert(old(self)@.take(k as int).drop_last() =~= old(self)@.take(k - 1));
                assert(old(self)@.skip(k as int).insert(0, old(self)@[k - 1]) =~= old(
                    self,
                )@.skip(k - 1));
            }
            k = k - 1;
        }
        out
    }

    /// Remove all elements.
    pub fn clear(&mut self)
        requires
            old(self).wf(),
        ensures
            final(self).wf(),
            final(self)@ == Seq::<A>::empty(),
    {
        self.drop_right(0);
        proof {
            assert(old(self)@.take(0) =~= Seq::<A>::empty());
        }
    }

    /// Move all elements out, front to back, leaving the buffer empty.
    pub fn drain(&mut self) -> (r: Vec<A>)
        requires
            old(self).wf(),
        ensures
            final(self).wf(),
            r@ == old(self)@,
            final(self)@ == Seq::<A>::empty(),
    {
        let mut out: Vec<A> = Vec::new();
        let n = self.length;
        let mut k: usize = 0;
        while k < n
            invariant
                self.wf(),
                k <= n,
                out@ == old(self)@.take(k as int),
                self@ == old(self)@.skip(k as int),
                n == old(self)@.len(),
            decreases n - k,
        {
            let v = self.pop_front();
            out.push(v.unwrap());
            proof {
                assert(old(self)@.skip(k as int).drop_first() =~= old(self)@.skip(k + 1));
                assert(out@ =~= old(self)@.take(k + 1));
            }
            k = k + 1;
        }
        proof {
            assert(out@ =~= old(self)@);
            assert(self@ =~= Seq::<A>::empty());
        }
        out
    }

    /// Insert `value` before the first element that is not less than it.
    /// The buffer is meant to be sorted already: when the element type's
    /// comparison is a total order and the buffer was sorted, it stays
    /// sorted.
    pub fn insert_ordered(&mut self, value: A) where A: PartialOrd
        requires
            old(self).wf(),
            old(self)@.len() < N,
        ensures
            final(self).wf(),
            exists|k: int|
                #![auto]
                0 <= k <= old(self)@.len() && final(self)@ == old(self)@.insert(k, value),
            (A::obeys_partial_cmp_spec() && crate::order::total_order::<A>()
                && crate::order::sorted_by_le(old(self)@)) ==> crate::order::sorted_by_le(
                final(self)@,
            ),
    {
        let len = self.len();
        let mut k: usize = 0;
        let mut go = true;
        while go && k < len
            invariant
                self.wf(),
                self@ == old(self)@,
                len == self@.len(),
                k <= len,
                A::obeys_partial_cmp_spec() ==> forall|j: int|
                    0 <= j < k ==> (#[trigger] self@[j].partial_cmp_spec(&value)) == Some(
                        core::cmp::Ordering::Less,
                    ),
                !go ==> (k < len && (A::obeys_partial_cmp_spec()
                    ==> self@[k as int].partial_cmp_spec(&value) != Some(
                    core::cmp::Ordering::Less,
                ))),
            decreases len - k + if go {
                1int
            } else {
                0int
            },
        {
            let stop = match self.get(k) {
                Some(a) => !a.lt(&value),
                None => true,
            };
            if stop {
                go = false;
            } else {
                k = k + 1;
            }
        }
        self.insert(k, value);
        proof {
            assert(0 <= k <= old(self)@.len() && self@ == old(self)@.insert(k as int, value));
            if A::obeys_partial_cmp_spec() && crate::order::total_order::<A>()
                && crate::order::sorted_by_le(old(self)@) {
                crate::order::lemma_sorted_insert(old(self)@, k as int, value);
            }
        }
    }

    /// Iterate over borrows of the elements, in logical order, from either
    /// end.
    pub fn iter(&self) -> (it: Iter<'_, A, N>)
        requires
            self.wf(),
        ensures
            it.wf(),
            it.remaining() == self@,
    {
        Iter { buffer: self, front: 0, back: self.length }
    }

    /// Turn the buffer into a double-ended consuming iterator.
    pub fn into_iter(self) -> (it: OwnedIter<A, N>)
        requires
            self.wf(),
        ensures
            it.wf(),
            it.remaining() == self@,
    {
        OwnedIter { buffer: self }
    }
}

impl<A: Clone, const N: usize> Clone for RingBuffer<A, N> {
    /// Clone element by element; the copy holds the same logical sequence,
    /// each element related to the original through `A::clone`.
    fn clone(&self) -> (r: Self)
        ensures
            self.wf() ==> r.wf(),
            r@.len() == self@.len(),
            self.wf() ==> forall|k: int|
                0 <= k < self@.len() ==> cloned::<A>(self@[k], #[trigger] r@[k]),
    {
        let r = RingBuffer { origin: self.origin, length: self.length, data: self.data.clone() };
        proof {
            assert forall|i: int| 0 <= i < self.data@.len() implies ((#[trigger] r.data@[i])
                is Some <==> self.data@[i] is Some) && (self.data@[i] is Some ==> cloned::<A>(
                self.data@[i]->0,
                r.data@[i]->0,
            )) by {
                assert(cloned::<Option<A>>(self.data@[i], r.data@[i]));
            }
        }
        r
    }
}

/// A double-ended iterator over borrows of the elements of a
/// [`RingBuffer`], in logical order.
pub struct Iter<'a, A, const N: usize> {
    buffer: &'a RingBuffer<A, N>,
    front: usize,
    back: usize,
}

impl<'a, A, const N: usize> Iter<'a, A, N> {
    /// The elements not yet yielded, in logical order.
    pub closed spec fn remaining(&self) -> Seq<A> {
        self.buffer@.subrange(self.front as int, self.back as int)
    }

    pub closed spec fn wf(&self) -> bool {
        &&& self.buffer.wf()
        &&& self.front <= self.back
        &&& self.back <= self.buffer@.len()
    }

    /// Yield a borrow of the first remaining element, or `None` when none
    /// remain.
    pub fn next(&mut self) -> (r: Option<&'a A>)
        requires
            old(self).wf(),
        ensures
            final(self).wf(),
            match r {
                Some(a) => old(self).remaining().len() > 0 && *a == old(self).remaining().first()
                    && final(self).remaining() == old(self).remaining().drop_first(),
                None => old(self).remaining().len() == 0 && final(self).remaining() == old(
                    self,
                ).remaining(),
            },
    {
        if self.front < self.back {
            let r = self.buffer.get(self.front);
            self.front = self.front + 1;
            proof {
                assert(self.remaining() =~= old(self).remaining().drop_first());
            }
            r
        } else {
            proof {
                assert(self.remaining() =~= old(self).remaining());
            }
            None
        }
    }

    /// Yield a borrow of the last remaining element, or `None` when none
    /// remain.
    pub fn next_back(&mut self) -> (r: Option<&'a A>)
        requires
            old(self).wf(),
        ensures
            final(self).wf(),
            match r {
                Some(a) => old(self).remaining().len() > 0 && *a == old(self).remaining().last()
                    && final(self).remaining() == old(self).remaining().drop_last(),
                None => old(self).remaining().len() == 0 && final(self).remaining() == old(
                    self,
                ).remaining(),
            },
    {
        if self.front < self.back {
            let b = self.back - 1;
            let r = self.buffer.get(b);
            self.back = b;
            proof {
                assert(self.remaining() =~= old(self).remaining().drop_last());
            }
            r
        } else {
            proof {
                assert(self.remaining() =~= old(self).remaining());
            }
            None
        }
    }
}

/// A double-ended consuming iterator over the elements of a [`RingBuffer`].
pub struct OwnedIter<A, const N: usize> {
    buffer: RingBuffer<A, N>,
}

impl<A, const N: usize> OwnedIter<A, N> {
    /// The elements not yet yielded, in logical order.
    pub closed spec fn remaining(&self) -> Seq<A> {
        self.buffer@
    }

    pub closed spec fn wf(&self) -> bool {
        self.buffer.wf()
    }

    /// Yield the first remaining element, or `None` when none remain.
    pub fn next(&mut self) -> (r: Option<A>)
        requires
            old(self).wf(),
        ensures
            final(self).wf(),
            match r {
                Some(v) => old(self).remaining().len() > 0 && v == old(self).remaining().first()
                    && final(self).remaining() == old(self).remaining().drop_first(),
                None => old(self).remaining().len() == 0 && final(self).remaining() == old(
                    self,
                ).remaining(),
            },
    {
        self.buffer.pop_front()
    }

    /// Yield the last remaining element, or `None` when none remain.
    pub fn next_back(&mut self) -> (r: Option<A>)
        requires
            old(self).wf(),
        ensures
            final(self).wf(),
            match r {
                Some(v) => old(self).remaining().len() > 0 && v == old(self).remaining().last()
                    && final(self).remaining() == old(self).remaining().drop_last(),
                None => old(self).remaining().len() == 0 && final(self).remaining() == old(
                    self,
                ).remaining(),
            },
    {
        self.buffer.pop_back()
    }
}

} // verus!
