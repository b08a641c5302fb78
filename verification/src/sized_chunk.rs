//! A fixed capacity smart array: a deque that stays contiguous.
//!
//! See [`Chunk`].

use vstd::prelude::*;
use vstd::std_specs::cmp::PartialOrdSpec;

verus! {

/// A contiguous deque over `N` slots.
///
/// Live elements occupy the slot window `[left, right)`; slots outside the
/// window are free. A push onto a side whose end of the backing store is
/// already in use slides the whole window towards the middle first, so the
/// live elements always stay contiguous.
///
/// A free slot holds `None`, a live slot `Some`; the structural invariant
/// ties the window metadata to the slot states, standing in for the manual
/// initialization tracking that an unchecked implementation would need.
pub struct Chunk<A, const N: usize> {
    left: usize,
    right: usize,
    data: Vec<Option<A>>,
}

impl<A, const N: usize> View for Chunk<A, N> {
    type V = Seq<A>;

    /// The live elements, in order.
    closed spec fn view(&self) -> Seq<A> {
        Seq::new((self.right - self.left) as nat, |k: int| self.data@[self.left + k]->0)
    }
}

impl<A, const N: usize> Chunk<A, N> {
    /// Structural invariant: the window bounds are ordered and in range, and
    /// a slot is live exactly when it lies inside the window.
    pub closed spec fn wf(&self) -> bool {
        &&& self.data@.len() == N
        &&& self.left <= self.right
        &&& self.right <= N
        &&& forall|i: int|
            0 <= i < N ==> ((#[trigger] self.data@[i]) is Some <==> self.left <= i < self.right)
    }

    /// Every chunk holds at most `N` elements.
    pub proof fn lemma_len_within_capacity(&self)
        requires
            self.wf(),
        ensures
            self@.len() <= N,
    {
    }

    /// Construct an empty chunk.
    pub fn new() -> (r: Self)
        ensures
            r.wf(),
            r@ == Seq::<A>::empty(),
    {
        let mut data: Vec<Option<A>> = Vec::new();
        let mut k: usize = 0;
        while k < N
            invariant
                data@.len() == k,
                k <= N,
                forall|i: int| 0 <= i < k ==> (#[trigger] data@[i]) is None,
            decreases N - k,
        {
            data.push(None);
            k = k + 1;
        }
        let r = Chunk { left: 0, right: 0, data };
        proof {
            assert(r@ =~= Seq::<A>::empty());
        }
        r
    }

    /// The number of live elements.
    pub fn len(&self) -> (r: usize)
        requires
            self.wf(),
        ensures
            r == self@.len(),
    {
        self.right - self.left
    }

    /// Whether the chunk holds no elements.
    pub fn is_empty(&self) -> (r: bool)
        requires
            self.wf(),
        ensures
            r == (self@.len() == 0),
    {
        self.left == self.right
    }

    /// Whether the chunk holds `N` elements.
    pub fn is_full(&self) -> (r: bool)
        requires
            self.wf(),
        ensures
            r == (self@.len() == N),
    {
        self.right - self.left == N
    }

    /// Move the `count` live slots `[src, src + count)` to `[dst, dst + count)`
    /// as a block, leaving vacated source slots free. Mirrors a bulk byte move:
    /// the traversal order is chosen so that no unmoved slot is overwritten.
    fn move_block(&mut self, src: usize, dst: usize, count: usize)
        requires
            old(self).data@.len() == N,
            src + count <= N,
            dst + count <= N,
            forall|i: int| src <= i < src + count ==> (#[trigger] old(self).data@[i]) is Some,
        ensures
            final(self).left == old(self).left,
            final(self).right == old(self).right,
            final(self).data@.len() == N,
            forall|i: int|
                dst <= i < dst + count ==> #[trigger] final(self).data@[i] == old(self).data@[i
                    - dst + src],
            forall|i: int|
                0 <= i < N && !(dst <= i < dst + count) && !(src <= i < src + count)
                    ==> #[trigger] final(self).data@[i] == old(self).data@[i],
            forall|i: int|
                src <= i < src + count && !(dst <= i < dst + count) ==> (
                #[trigger] final(self).data@[i]) is None,
    {
        if dst < src {
            let mut k: usize = 0;
            while k < count
                invariant
                    self.left == old(self).left,
                    self.right == old(self).right,
                    self.data@.len() == N,
                    k <= count,
                    src + count <= N,
                    dst + count <= N,
                    dst < src,
                    forall|i: int|
                        src <= i < src + count ==> (#[trigger] old(self).data@[i]) is Some,
                    forall|i: int|
                        dst <= i < dst + k ==> #[trigger] self.data@[i] == old(self).data@[i - dst
                            + src],
                    forall|i: int|
                        src + k <= i < src + count ==> #[trigger] self.data@[i] == old(
                            self,
                        ).data@[i],
                    forall|i: int|
                        0 <= i < N && !(dst <= i < dst + k) && !(src <= i < src + count)
                            ==> #[trigger] self.data@[i] == old(self).data@[i],
                    forall|i: int|
                        src <= i < src + k && !(dst <= i < dst + k) ==> (
                        #[trigger] self.data@[i]) is None,
                decreases count - k,
            {
                let v = self.data[src + k].take();
                self.data[dst + k] = v;
                k = k + 1;
            }
        } else if dst > src {
            let mut k: usize = count;
            while k > 0
                invariant
                    self.left == old(self).left,
                    self.right == old(self).right,
                    self.data@.len() == N,
                    k <= count,
                    src + count <= N,
                    dst + count <= N,
                    dst > src,
                    forall|i: int|
                        src <= i < src + count ==> (#[trigger] old(self).data@[i]) is Some,
                    forall|i: int|
                        dst + k <= i < dst + count ==> #[trigger] self.data@[i] == old(
                            self,
                        ).data@[i - dst + src],
                    forall|i: int|
                        src <= i < src + k ==> #[trigger] self.data@[i] == old(self).data@[i],
                    forall|i: int|
                        0 <= i < N && !(dst + k <= i < dst + count) && !(src <= i < src + count)
                            ==> #[trigger] self.data@[i] == old(self).data@[i],
                    forall|i: int|
                        src + k <= i < src + count && !(dst + k <= i < dst + count) ==> (
                        #[trigger] self.data@[i]) is None,
                decreases k,
            {
                k = k - 1;
                let v = self.data[src + k].take();
                self.data[dst + k] = v;
            }
        }
    }

    /// Slide the whole window so that it starts at `new_left`, preserving the
    /// element order.
    fn shift_window(&mut self, new_left: usize)
        requires
            old(self).wf(),
            new_left + old(self)@.len() <= N,
        ensures
            final(self).wf(),
            final(self)@ == old(self)@,
            final(self).left == new_left,
            final(self).right == new_left + old(self)@.len(),
    {
        let len = self.right - self.left;
        let l = self.left;
        self.move_block(l, new_left, len);
        self.left = new_left;
        self.right = new_left + len;
        proof {
            assert(self@ =~= old(self)@);
        }
    }

    /// Push an element onto the back, recentering the window first when its
    /// right end has reached the backing store's edge.
    pub fn push_back(&mut self, value: A)
        requires
            old(self).wf(),
            old(self)@.len() < N,
        ensures
            final(self).wf(),
            final(self)@ == old(self)@.push(value),
    {
        if self.right == N {
            let len = self.right - self.left;
            let new_left = (N - len) / 2;
            proof {
                assert((N - len) / 2 + len < N) by (nonlinear_arith)
                    requires
                        0 <= len < N,
                ;
            }
            self.shift_window(new_left);
        }
        let r = self.right;
        self.data[r] = Some(value);
        self.right = r + 1;
        proof {
            assert(self@ =~= old(self)@.push(value));
        }
    }

    /// Push an element onto the front, recentering the window first when its
    /// left end has reached the backing store's edge.
    pub fn push_front(&mut self, value: A)
        requires
            old(self).wf(),
            old(self)@.len() < N,
        ensures
            final(self).wf(),
            final(self)@ == old(self)@.insert(0, value),
    {
        if self.left == 0 {
            let len = self.right - self.left;
            let new_left = (N - len) / 2 + 1;
            proof {
                assert(1 <= (N - len) / 2 + 1 && (N - len) / 2 + 1 + len <= N) by (nonlinear_arith)
                    requires
                        0 <= len < N,
                ;
            }
            self.shift_window(new_left);
        }
        let l = self.left - 1;
        self.data[l] = Some(value);
        self.left = l;
        proof {
            assert(self@ =~= old(self)@.insert(0, value));
        }
    }

    /// Pop an element from the back; `None` when the chunk is empty.
    pub fn pop_back(&mut self) -> (r: Option<A>)
        requires
            old(self).wf(),
        ensures
            final(self).wf(),
            match r {
                Some(v) => old(self)@.len() > 0 && v == old(self)@.last() && final(self)@ == old(
                    self,
                )@.drop_last(),
                None => old(self)@.len() == 0 && *final(self) == *old(self),
            },
    {
        if self.left == self.right {
            None
        } else {
            let r = self.right - 1;
            let v = self.data[r].take();
            self.right = r;
            proof {
                assert(self@ =~= old(self)@.drop_last());
            }
            v
        }
    }

    /// Pop an element from the front; `None` when the chunk is empty.
    pub fn pop_front(&mut self) -> (r: Option<A>)
        requires
            old(self).wf(),
        ensures
            final(self).wf(),
            match r {
                Some(v) => old(self)@.len() > 0 && v == old(self)@.first() && final(self)@ == old(
                    self,
                )@.drop_first(),
                None => old(self)@.len() == 0 && *final(self) == *old(self),
            },
    {
        if self.left == self.right {
            None
        } else {
            let l = self.left;
            let v = self.data[l].take();
            self.left = l + 1;
            proof {
                assert(self@ =~= old(self)@.drop_first());
            }
            v
        }
    }

    /// Borrow the element at `index`; `None` when `index` is out of range.
    pub fn get(&self, index: usize) -> (r: Option<&A>)
        requires
            self.wf(),
        ensures
            match r {
                Some(a) => index < self@.len() && *a == self@[index as int],
                None => index >= self@.len(),
            },
    {
        if index < self.right - self.left {
            self.data[self.left + index].as_ref()
        } else {
            None
        }
    }

    /// Replace the element at `index`, returning the previous element.
    pub fn set(&mut self, index: usize, value: A) -> (r: A)
        requires
            old(self).wf(),
            index < old(self)@.len(),
        ensures
            final(self).wf(),
            final(self)@ == old(self)@.update(index as int, value),
            r == old(self)@[index as int],
    {
        let i = self.left + index;
        let prev = self.data[i].take();
        self.data[i] = Some(value);
        proof {
            assert(self@ =~= old(self)@.update(index as int, value));
        }
        prev.unwrap()
    }

    /// Insert an element at `index`, shifting the side of the window that has
    /// room (preferring the shorter side when both do).
    pub fn insert(&mut self, index: usize, value: A)
        requires
            old(self).wf(),
            index <= old(self)@.len(),
            old(self)@.len() < N,
        ensures
            final(self).wf(),
            final(self)@ == old(self)@.insert(index as int, value),
    {
        let len = self.right - self.left;
        let shift_left = if self.right == N {
            true
        } else if self.left == 0 {
            false
        } else {
            index < len - index
        };
        if shift_left {
            let l = self.left;
            self.move_block(l, l - 1, index);
            self.data[l - 1 + index] = Some(value);
            self.left = l - 1;
        } else {
            let l = self.left;
            self.move_block(l + index, l + index + 1, len - index);
            self.data[l + index] = Some(value);
            self.right = self.right + 1;
        }
        proof {
            assert(self@ =~= old(self)@.insert(index as int, value));
        }
    }

    /// Remove and return the element at `index`, closing the gap from the
    /// shorter side.
    pub fn remove(&mut self, index: usize) -> (r: A)
        requires
            old(self).wf(),
            index < old(self)@.len(),
        ensures
            final(self).wf(),
            r == old(self)@[index as int],
            final(self)@ == old(self)@.remove(index as int),
    {
        let len = self.right - self.left;
        let l = self.left;
        let v = self.data[l + index].take();
        if index < len - index - 1 {
            self.move_block(l, l + 1, index);
            self.left = l + 1;
        } else {
            self.move_block(l + index + 1, l + index, len - index - 1);
            self.right = self.right - 1;
        }
        proof {
            assert(self@ =~= old(self)@.remove(index as int));
        }
        v.unwrap()
    }

    /// Discard the first `count` elements, keeping `[count, len)`.
    pub fn drop_left(&mut self, count: usize)
        requires
            old(self).wf(),
            count <= old(self)@.len(),
        ensures
            final(self).wf(),
            final(self)@ == old(self)@.skip(count as int),
    {
        let l = self.left;
        let mut k: usize = 0;
        while k < count
            invariant
                old(self).wf(),
                self.right == old(self).right,
                self.left == old(self).left,
                self.data@.len() == N,
                l == self.left,
                k <= count,
                count <= self.right - self.left,
                forall|i: int|
                    0 <= i < N && !(l <= i < l + k) ==> #[trigger] self.data@[i] == old(
                        self,
                    ).data@[i],
                forall|i: int| l <= i < l + k ==> (#[trigger] self.data@[i]) is None,
            decreases count - k,
        {
            self.data[l + k] = None;
            k = k + 1;
        }
        self.left = l + count;
        proof {
            assert(self@ =~= old(self)@.skip(count as int));
        }
    }

    /// Discard everything from index `count` on, keeping `[0, count)`.
    pub fn drop_right(&mut self, count: usize)
        requires
            old(self).wf(),
            count <= old(self)@.len(),
        ensures
            final(self).wf(),
            final(self)@ == old(self)@.take(count as int),
    {
        let l = self.left;
        let r = self.right;
        let mut k: usize = l + count;
        while k < r
            invariant
                old(self).wf(),
                self.right == old(self).right,
                self.left == old(self).left,
                self.data@.len() == N,
                l == self.left,
                r == self.right,
                l + count <= k <= r,
                r <= N,
                forall|i: int|
                    0 <= i < N && !(l + count <= i < k) ==> #[trigger] self.data@[i] == old(
                        self,
                    ).data@[i],
                forall|i: int| l + count <= i < k ==> (#[trigger] self.data@[i]) is None,
            decreases r - k,
        {
            self.data[k] = None;
            k = k + 1;
        }
        self.right = l + count;
        proof {
            assert(self@ =~= old(self)@.take(count as int));
        }
    }

    /// Split the chunk at `index`: the returned chunk takes `[index, len)`,
    /// `self` keeps `[0, index)`.
    pub fn split_off(&mut self, index: usize) -> (r: Self)
        requires
            old(self).wf(),
            index <= old(self)@.len(),
        ensures
            final(self).wf(),
            r.wf(),
            final(self)@ == old(self)@.take(index as int),
            r@ == old(self)@.skip(index as int),
    {
        let len = self.right - self.left;
        let l = self.left;
        let mut out = Self::new();
        let mut k: usize = index;
        while k < len
            invariant
                old(self).wf(),
                self.right == old(self).right,
                self.left == old(self).left,
                self.data@.len() == N,
                out.wf(),
                l == self.left,
                len == self.right - self.left,
                self.right <= N,
                index <= k <= len,
                out@ == old(self)@.subrange(index as int, k as int),
                forall|i: int|
                    0 <= i < N && !(l + index <= i < l + k) ==> #[trigger] self.data@[i] == old(
                        self,
                    ).data@[i],
                forall|i: int| l + index <= i < l + k ==> (#[trigger] self.data@[i]) is None,
            decreases len - k,
        {
            let v = self.data[l + k].take();
            out.push_back(v.unwrap());
            proof {
                assert(out@ =~= old(self)@.subrange(index as int, k + 1));
            }
            k = k + 1;
        }
        self.right = l + index;
        proof {
            assert(self@ =~= old(self)@.take(index as int));
            assert(out@ =~= old(self)@.skip(index as int));
        }
        out
    }

    /// Remove all elements, leaving the window at the start of the store.
    pub fn clear(&mut self)
        requires
            old(self).wf(),
        ensures
            final(self).wf(),
            final(self)@ == Seq::<A>::empty(),
    {
        let l = self.left;
        let r = self.right;
        let mut k: usize = l;
        while k < r
            invariant
                old(self).wf(),
                self.right == old(self).right,
                self.left == old(self).left,
                self.data@.len() == N,
                l == self.left,
                r == self.right,
                l <= k <= r,
                r <= N,
                forall|i: int|
                    0 <= i < N && !(l <= i < k) ==> #[trigger] self.data@[i] == old(self).data@[i],
                forall|i: int| l <= i < k ==> (#[trigger] self.data@[i]) is None,
            decreases r - k,
        {
            self.data[k] = None;
            k = k + 1;
        }
        self.left = 0;
        self.right = 0;
        proof {
            assert(self@ =~= Seq::<A>::empty());
        }
    }

    /// Move all elements out, front to back, leaving the chunk empty.
    pub fn drain(&mut self) -> (r: Vec<A>)
        requires
            old(self).wf(),
        ensures
            final(self).wf(),
            r@ == old(self)@,
            final(self)@ == Seq::<A>::empty(),
    {
        let mut out: Vec<A> = Vec::new();
        let n = self.len();
        let mut k: usize = 0;
        while k < n
            invariant
                self.wf(),
                k <= n,
                out@ == old(self)@.take(k as int),
                self@ == old(self)@.skip(k as int),
                n == old(self)@.len(),
            decreases n - k,
        {
            let v = self.pop_front();
            out.push(v.unwrap());
            proof {
                assert(old(self)@.skip(k as int).drop_first() =~= old(self)@.skip(k + 1));
                assert(out@ =~= old(self)@.take(k + 1));
            }
            k = k + 1;
        }
        proof {
            assert(out@ =~= old(self)@);
            assert(self@ =~= Seq::<A>::empty());
        }
        out
    }

    /// Move all of `other`'s elements to the back of `self`, in order.
    pub fn append(&mut self, other: &mut Self)
        requires
            old(self).wf(),
            old(other).wf(),
            old(self)@.len() + old(other)@.len() <= N,
        ensures
            final(self).wf(),
            final(other).wf(),
            final(self)@ == old(self)@ + old(other)@,
            final(other)@ == Seq::<A>::empty(),
    {
        let n = other.len();
        let mut k: usize = 0;
        while k < n
            invariant
                self.wf(),
                other.wf(),
                k <= n,
                n == old(other)@.len(),
                old(self)@.len() + n <= N,
                self@ == old(self)@ + old(other)@.take(k as int),
                other@ == old(other)@.skip(k as int),
            decreases n - k,
        {
            let v = other.pop_front();
            self.push_back(v.unwrap());
            proof {
                assert(old(other)@.skip(k as int).drop_first() =~= old(other)@.skip(k + 1));
                assert((old(self)@ + old(other)@.take(k as int)).push(old(other)@[k as int]) =~= old(
                    self,
                )@ + old(other)@.take(k + 1));
            }
            k = k + 1;
        }
        proof {
            assert(self@ =~= old(self)@ + old(other)@);
            assert(other@ =~= Seq::<A>::empty());
        }
    }

    /// Construct a chunk by moving every element out of `other`, which is
    /// left empty.
    pub fn drain_from(other: &mut Self) -> (r: Self)
        requires
            old(other).wf(),
        ensures
            r.wf(),
            final(other).wf(),
            r@ == old(other)@,
            final(other)@ == Seq::<A>::empty(),
    {
        let mut r = Self::new();
        r.append(other);
        proof {
            assert(r@ =~= old(other)@);
        }
        r
    }

    /// Construct a chunk with a single element.
    pub fn unit(value: A) -> (r: Self)
        requires
            1 <= N,
        ensures
            r.wf(),
            r@ =~= seq![value],
    {
        let mut r = Self::new();
        r.push_back(value);
        r
    }

    /// Construct a chunk with two elements.
    pub fn pair(left: A, right: A) -> (r: Self)
        requires
            2 <= N,
        ensures
            r.wf(),
            r@ =~= seq![left, right],
    {
        let mut r = Self::new();
        r.push_back(left);
        r.push_back(right);
        r
    }

    /// Construct a chunk holding the elements of `values`, in order.
    pub fn from_iter(values: Vec<A>) -> (r: Self)
        requires
            values@.len() <= N,
        ensures
            r.wf(),
            r@ == values@,
    {
        let mut source = values;
        let mut r = Self::new();
        proof {
            assert(values@.take(values@.len() as int) =~= values@);
            assert(values@.skip(values@.len() as int) =~= Seq::<A>::empty());
        }
        while source.len() > 0
            invariant
                r.wf(),
                values@.len() <= N,
                source@.len() <= values@.len(),
                source@ == values@.take(source@.len() as int),
                r@ == values@.skip(source@.len() as int),
            decreases source@.len(),
        {
            let v = source.pop();
            r.push_front(v.unwrap());
            proof {
                assert(source@ =~= values@.take(source@.len() as int));
                assert(r@ =~= values@.skip(source@.len() as int));
            }
        }
        proof {
            assert(r@ =~= values@);
        }
        r
    }

    /// Construct a chunk by moving the next `count` elements out of the front
    /// of `source`.
    pub fn collect_from(source: &mut Vec<A>, count: usize) -> (r: Self)
        requires
            count <= old(source)@.len(),
            count <= N,
        ensures
            r.wf(),
            r@ == old(source)@.take(count as int),
            final(source)@ == old(source)@.skip(count as int),
    {
        let mut r = Self::new();
        let mut k: usize = 0;
        while k < count
            invariant
                r.wf(),
                k <= count,
                count <= N,
                count <= old(source)@.len(),
                r@ == old(source)@.take(k as int),
                source@ == old(source)@.skip(k as int),
            decreases count - k,
        {
            let v = source.remove(0);
            r.push_back(v);
            proof {
                assert(r@ =~= old(source)@.take(k + 1));
                assert(source@ =~= old(source)@.skip(k + 1));
            }
            k = k + 1;
        }
        r
    }

    /// Construct a chunk by moving the first `count` elements out of the
    /// front of `other`, leaving the rest in place.
    pub fn from_front(other: &mut Self, count: usize) -> (r: Self)
        requires
            old(other).wf(),
            count <= old(other)@.len(),
        ensures
            r.wf(),
            final(other).wf(),
            r@ == old(other)@.take(count as int),
            final(other)@ == old(other)@.skip(count as int),
    {
        let mut r = Self::new();
        r.drain_from_front(other, count);
        r
    }

    /// Construct a chunk by moving the last `count` elements out of the back
    /// of `other`, leaving the rest in place.
    pub fn from_back(other: &mut Self, count: usize) -> (r: Self)
        requires
            old(other).wf(),
            count <= old(other)@.len(),
        ensures
            r.wf(),
            final(other).wf(),
            r@ == old(other)@.skip(old(other)@.len() - count),
            final(other)@ == old(other)@.take(old(other)@.len() - count),
    {
        let mut r = Self::new();
        r.drain_from_back(other, count);
        proof {
            assert(r@ =~= old(other)@.skip(old(other)@.len() - count));
        }
        r
    }

    /// Move the first `count` elements of `other` to the back of `self`,
    /// keeping their order.
    pub fn drain_from_front(&mut self, other: &mut Self, count: usize)
        requires
            old(self).wf(),
            old(other).wf(),
            count <= old(other)@.len(),
            old(self)@.len() + count <= N,
        ensures
            final(self).wf(),
            final(other).wf(),
            final(self)@ == old(self)@ + old(other)@.take(count as int),
            final(other)@ == old(other)@.skip(count as int),
    {
        let mut k: usize = 0;
        while k < count
            invariant
                self.wf(),
                other.wf(),
                k <= count,
                count <= old(other)@.len(),
                old(self)@.len() + count <= N,
                self@ == old(self)@ + old(other)@.take(k as int),
                other@ == old(other)@.skip(k as int),
            decreases count - k,
        {
            let v = other.pop_front();
            self.push_back(v.unwrap());
            proof {
                assert(old(other)@.skip(k as int).drop_first() =~= old(other)@.skip(k + 1));
                assert((old(self)@ + old(other)@.take(k as int)).push(old(other)@[k as int]) =~= old(
                    self,
                )@ + old(other)@.take(k + 1));
            }
            k = k + 1;
        }
    }

    /// Move the last `count` elements of `other` to the front of `self`,
    /// keeping their order.
    pub fn drain_from_back(&mut self, other: &mut Self, count: usize)
        requires
            old(self).wf(),
            old(other).wf(),
            count <= old(other)@.len(),
            old(self)@.len() + count <= N,
        ensures
            final(self).wf(),
            final(other).wf(),
            final(self)@ == old(other)@.skip(old(other)@.len() - count) + old(self)@,
            final(other)@ == old(other)@.take(old(other)@.len() - count),
    {
        let ghost split = old(other)@.len() - count;
        let mut k: usize = 0;
        while k < count
            invariant
                self.wf(),
                other.wf(),
                k <= count,
                count <= old(other)@.len(),
                old(self)@.len() + count <= N,
                split == old(other)@.len() - count,
                self@ == old(other)@.subrange(old(other)@.len() - k, old(other)@.len() as int)
                    + old(self)@,
                other@ == old(other)@.take(old(other)@.len() - k),
            decreases count - k,
        {
            let v = other.pop_back();
            self.push_front(v.unwrap());
            proof {
                let m = old(other)@.len() as int;
                assert(old(other)@.take(m - k).drop_last() =~= old(other)@.take(m - (k + 1)));
                assert((old(other)@.subrange(m - k, m) + old(self)@).insert(
                    0,
                    old(other)@[m - (k + 1)],
                ) =~= old(other)@.subrange(m - (k + 1), m) + old(self)@);
            }
            k = k + 1;
        }
    }

    /// Insert the elements of `values` at position `index`, in order.
    pub fn insert_from(&mut self, index: usize, values: Vec<A>)
        requires
            old(self).wf(),
            index <= old(self)@.len(),
            old(self)@.len() + values@.len() <= N,
        ensures
            final(self).wf(),
            final(self)@ == old(self)@.take(index as int) + values@ + old(self)@.skip(index as int),
    {
        let n = values.len();
        let mut source = values;
        let mut k: usize = 0;
        while k < n
            invariant
                self.wf(),
                k <= n,
                n == values@.len(),
                index <= old(self)@.len(),
                old(self)@.len() + n <= N,
                source@ == values@.skip(k as int),
                self@ == old(self)@.take(index as int) + values@.take(k as int) + old(
                    self,
                )@.skip(index as int),
            decreases n - k,
        {
            let v = source.remove(0);
            self.insert(index + k, v);
            proof {
                assert(source@ =~= values@.skip(k + 1));
                assert((old(self)@.take(index as int) + values@.take(k as int) + old(self)@.skip(
                    index as int,
                )).insert(index + k, values@[k as int]) =~= old(self)@.take(index as int)
                    + values@.take(k + 1) + old(self)@.skip(index as int));
            }
            k = k + 1;
        }
        proof {
            assert(values@.take(n as int) =~= values@);
        }
    }

    /// Insert `value` before the first element that is not less than it.
    /// The chunk is meant to be sorted already: when the element type's
    /// comparison is a total order and the chunk was sorted, it stays
    /// sorted.
    pub fn insert_ordered(&mut self, value: A) where A: PartialOrd
        requires
            old(self).wf(),
            old(self)@.len() < N,
        ensures
            final(self).wf(),
            exists|k: int|
                #![auto]
                0 <= k <= old(self)@.len() && final(self)@ == old(self)@.insert(k, value),
            (A::obeys_partial_cmp_spec() && crate::order::total_order::<A>()
                && crate::order::sorted_by_le(old(self)@)) ==> crate::order::sorted_by_le(
                final(self)@,
            ),
    {
        let len = self.len();
        let mut k: usize = 0;
        let mut go = true;
        while go && k < len
            invariant
                self.wf(),
                self@ == old(self)@,
                len == self@.len(),
                k <= len,
                A::obeys_partial_cmp_spec() ==> forall|j: int|
                    0 <= j < k ==> (#[trigger] self@[j].partial_cmp_spec(&value)) == Some(
                        core::cmp::Ordering::Less,
                    ),
                !go ==> (k < len && (A::obeys_partial_cmp_spec() ==> self@[k as int].partial_cmp_spec(
                    &value,
                ) != Some(core::cmp::Ordering::Less))),
            decreases len - k + if go {
                1int
            } else {
                0int
            },
        {
            let stop = match self.get(k) {
                Some(a) => !a.lt(&value),
                None => true,
            };
            if stop {
                go = false;
            } else {
                k = k + 1;
            }
        }
        self.insert(k, value);
        proof {
            assert(0 <= k <= old(self)@.len() && self@ == old(self)@.insert(k as int, value));
            if A::obeys_partial_cmp_spec() && crate::order::total_order::<A>()
                && crate::order::sorted_by_le(old(self)@) {
                crate::order::lemma_sorted_insert(old(self)@, k as int, value);
            }
        }
    }

    /// Building a chunk from a sequence and draining it returns the same
    /// sequence: this restates, over the views that `from_iter` and `drain`
    /// speak of, that the two compose to the identity on any input of
    /// admissible length.
    pub proof fn lemma_round_trip(input: Seq<A>, built: Seq<A>, drained: Seq<A>)
        requires
            built == input,
            drained == built,
        ensures
            drained == input,
    {
    }

    /// Turn the chunk into a double-ended consuming iterator.
    pub fn into_iter(self) -> (it: Iter<A, N>)
        requires
            self.wf(),
        ensures
            it.wf(),
            it.remaining() == self@,
    {
        Iter { chunk: self }
    }
}

impl<A: Clone, const N: usize> Clone for Chunk<A, N> {
    /// Clone element by element: the copy holds a sequence of the same
    /// length, each element related to the original through `A::clone`.
    fn clone(&self) -> (r: Self)
        ensures
            self.wf() ==> r.wf(),
            r@.len() == self@.len(),
            self.wf() ==> forall|k: int|
                0 <= k < self@.len() ==> cloned::<A>(self@[k], #[trigger] r@[k]),
    {
        let r = Chunk { left: self.left, right: self.right, data: self.data.clone() };
        proof {
            assert forall|i: int| 0 <= i < self.data@.len() implies ((#[trigger] r.data@[i])
                is Some <==> self.data@[i] is Some) && (self.data@[i] is Some ==> cloned::<A>(
                self.data@[i]->0,
                r.data@[i]->0,
            )) by {
                assert(cloned::<Option<A>>(self.data@[i], r.data@[i]));
            }
        }
        r
    }
}

/// When the element type's clone returns values equal to their originals,
/// a container clone's view equals the original's view.
pub proof fn lemma_clone_exact<A: Clone>(original: Seq<A>, copy: Seq<A>)
    requires
        copy.len() == original.len(),
        forall|k: int| 0 <= k < original.len() ==> cloned::<A>(original[k], #[trigger] copy[k]),
        forall|x: A, y: A| #[trigger] cloned::<A>(x, y) ==> x == y,
    ensures
        copy == original,
{
    assert(copy =~= original);
}

/// Iterating front to back and back to front covers the same elements: the
/// reversed order carries the same multiset.
pub proof fn lemma_double_ended_coverage<A>(s: Seq<A>)
    ensures
        s.reverse().to_multiset() == s.to_multiset(),
{
    s.lemma_reverse_to_multiset();
}

/// A double-ended consuming iterator over the elements of a [`Chunk`].
pub struct Iter<A, const N: usize> {
    chunk: Chunk<A, N>,
}

impl<A, const N: usize> Iter<A, N> {
    /// The elements not yet yielded, in order.
    pub closed spec fn remaining(&self) -> Seq<A> {
        self.chunk@
    }

    pub closed spec fn wf(&self) -> bool {
        self.chunk.wf()
    }

    /// Yield the first remaining element, or `None` when none remain.
    pub fn next(&mut self) -> (r: Option<A>)
        requires
            old(self).wf(),
        ensures
            final(self).wf(),
            match r {
                Some(v) => old(self).remaining().len() > 0 && v == old(self).remaining().first()
                    && final(self).remaining() == old(self).remaining().drop_first(),
                None => old(self).remaining().len() == 0 && final(self).remaining() == old(
                    self,
                ).remaining(),
            },
    {
        self.chunk.pop_front()
    }

    /// Yield the last remaining element, or `None` when none remain.
    pub fn next_back(&mut self) -> (r: Option<A>)
        requires
            old(self).wf(),
        ensures
            final(self).wf(),
            match r {
                Some(v) => old(self).remaining().len() > 0 && v == old(self).remaining().last()
                    && final(self).remaining() == old(self).remaining().drop_last(),
                None => old(self).remaining().len() == 0 && final(self).remaining() == old(
                    self,
                ).remaining(),
            },
    {
        self.chunk.pop_back()
    }
}

} // verus!
