//! A fixed capacity array sized to match some other type `T`.
//!
//! See [`InlineArray`].

use vstd::prelude::*;

verus! {

/// A vector whose capacity is derived from the byte size of a host type `T`:
/// the space of one `T` is treated as a machine-word length header followed
/// by as many `A` slots as fit in the remaining bytes.
///
/// The capacity may legitimately be zero (the host is too small to hold the
/// header and one element); such an array is constructible and permanently
/// full.
pub struct InlineArray<A, T> {
    data: Vec<A>,
    phantom: core::marker::PhantomData<T>,
}

impl<A, T> View for InlineArray<A, T> {
    type V = Seq<A>;

    closed spec fn view(&self) -> Seq<A> {
        self.data@
    }
}

impl<A, T> InlineArray<A, T> {
    /// The number of elements of `A` that fit beside a machine-word header in
    /// the space of a `T`.
    pub open spec fn spec_capacity() -> nat {
        if vstd::layout::size_of::<A>() == 0 || vstd::layout::size_of::<T>()
            < vstd::layout::size_of::<usize>() {
            0
        } else {
            (((vstd::layout::size_of::<T>() - vstd::layout::size_of::<usize>()) as nat) / (
            vstd::layout::size_of::<A>() as nat))
        }
    }

    /// Structural invariant: the element count never exceeds the derived
    /// capacity.
    pub closed spec fn wf(&self) -> bool {
        self.data@.len() <= Self::spec_capacity()
    }

    /// Every array holds at most [`Self::capacity`] elements.
    pub proof fn lemma_len_within_capacity(&self)
        requires
            self.wf(),
        ensures
            self@.len() <= Self::spec_capacity(),
    {
    }

    /// The derived element capacity.
    pub fn capacity() -> (r: usize)
        ensures
            r == Self::spec_capacity(),
    {
        let elem = core::mem::size_of::<A>();
        let host = core::mem::size_of::<T>();
        let header = core::mem::size_of::<usize>();
        if elem == 0 || host < header {
            0
        } else {
            (host - header) / elem
        }
    }

    /// Construct a new empty array. The host type must at least have room
    /// for the length header.
    pub fn new() -> (r: Self)
        requires
            vstd::layout::size_of::<T>() >= vstd::layout::size_of::<usize>(),
        ensures
            r.wf(),
            r@ == Seq::<A>::empty(),
    {
        InlineArray { data: Vec::new(), phantom: core::marker::PhantomData }
    }

    /// The number of elements in the array.
    pub fn len(&self) -> (r: usize)
        ensures
            r == self@.len(),
    {
        self.data.len()
    }

    /// Whether the array holds no elements.
    pub fn is_empty(&self) -> (r: bool)
        ensures
            r == (self@.len() == 0),
    {
        self.data.len() == 0
    }

    /// Whether the array is at capacity.
    pub fn is_full(&self) -> (r: bool)
        ensures
            r == (self@.len() >= Self::spec_capacity()),
    {
        self.data.len() >= Self::capacity()
    }

    /// Push an element onto the back.
    pub fn push(&mut self, value: A)
        requires
            old(self).wf(),
            old(self)@.len() < Self::spec_capacity(),
        ensures
            final(self).wf(),
            final(self)@ == old(self)@.push(value),
    {
        self.data.push(value);
    }

    /// Pop an element from the back; `None` when the array is empty.
    pub fn pop(&mut self) -> (r: Option<A>)
        requires
            old(self).wf(),
        ensures
            final(self).wf(),
            match r {
                Some(v) => old(self)@.len() > 0 && v == old(self)@.last() && final(self)@ == old(
                    self,
                )@.drop_last(),
                None => old(self)@.len() == 0 && final(self)@ == old(self)@,
            },
    {
        let r = self.data.pop();
        proof {
            if old(self)@.len() > 0 {
                assert(self@ =~= old(self)@.drop_last());
            }
        }
        r
    }

    /// Insert an element at `index`, shifting the following elements back.
    pub fn insert(&mut self, index: usize, value: A)
        requires
            old(self).wf(),
            index <= old(self)@.len(),
            old(self)@.len() < Self::spec_capacity(),
        ensures
            final(self).wf(),
            final(self)@ == old(self)@.insert(index as int, value),
    {
        self.data.insert(index, value);
    }

    /// Remove and return the element at `index`, shifting the following
    /// elements forward; `None` when `index` is out of range, leaving the
    /// array unchanged.
    pub fn remove(&mut self, index: usize) -> (r: Option<A>)
        requires
            old(self).wf(),
        ensures
            final(self).wf(),
            match r {
                Some(v) => index < old(self)@.len() && v == old(self)@[index as int]
                    && final(self)@ == old(self)@.remove(index as int),
                None => index >= old(self)@.len() && *final(self) == *old(self),
            },
    {
        if index < self.data.len() {
            Some(self.data.remove(index))
        } else {
            None
        }
    }

    /// Split the array at `index`: the returned array takes `[index, len)`,
    /// `self` keeps `[0, index)`.
    pub fn split_off(&mut self, index: usize) -> (r: Self)
        requires
            old(self).wf(),
            index <= old(self)@.len(),
        ensures
            final(self).wf(),
            r.wf(),
            final(self)@ == old(self)@.take(index as int),
            r@ == old(self)@.skip(index as int),
    {
        let out = self.data.split_off(index);
        InlineArray { data: out, phantom: core::marker::PhantomData }
    }

    /// Discard the contents of the array.
    pub fn clear(&mut self)
        requires
            old(self).wf(),
        ensures
            final(self).wf(),
            final(self)@ == Seq::<A>::empty(),
    {
        self.data.clear();
    }

    /// Move all elements out, front to back, leaving the array empty.
    pub fn drain(&mut self) -> (r: Vec<A>)
        requires
            old(self).wf(),
        ensures
            final(self).wf(),
            r@ == old(self)@,
            final(self)@ == Seq::<A>::empty(),
    {
        let mut out: Vec<A> = Vec::new();
        core::mem::swap(&mut out, &mut self.data);
        out
    }

    /// Borrow the element at `index`; `None` when `index` is out of range.
    pub fn get(&self, index: usize) -> (r: Option<&A>)
        ensures
            match r {
                Some(a) => index < self@.len() && *a == self@[index as int],
                None => index >= self@.len(),
            },
    {
        if index < self.data.len() {
            Some(&self.data[index])
        } else {
            None
        }
    }

    /// Replace the element at `index`, returning the previous element.
    pub fn set(&mut self, index: usize, value: A) -> (r: A)
        requires
            old(self).wf(),
            index < old(self)@.len(),
        ensures
            final(self).wf(),
            final(self)@ == old(self)@.update(index as int, value),
            r == old(self)@[index as int],
    {
        let mut value = value;
        let slot = &mut self.data[index];
        core::mem::swap(slot, &mut value);
        value
    }

    /// Turn the array into a double-ended consuming iterator.
    pub fn into_iter(self) -> (it: Iter<A, T>)
        requires
            self.wf(),
        ensures
            it.wf(),
            it.remaining() == self@,
    {
        Iter { array: self }
    }
}

impl<A: Clone, T> Clone for InlineArray<A, T> {
    /// Clone by cloning every element; the copy relates to the original
    /// element by element through `A::clone`.
    fn clone(&self) -> (r: Self)
        ensures
            r.wf() == self.wf(),
            r@.len() == self@.len(),
            forall|i: int| 0 <= i < self@.len() ==> cloned::<A>(self@[i], #[trigger] r@[i]),
    {
        InlineArray { data: self.data.clone(), phantom: core::marker::PhantomData }
    }
}

/// A double-ended consuming iterator over the elements of an [`InlineArray`].
pub struct Iter<A, T> {
    array: InlineArray<A, T>,
}

impl<A, T> Iter<A, T> {
    /// The elements not yet yielded, in order.
    pub closed spec fn remaining(&self) -> Seq<A> {
        self.array@
    }

    pub closed spec fn wf(&self) -> bool {
        self.array.wf()
    }

    /// Yield the first remaining element, or `None` when none remain.
    pub fn next(&mut self) -> (r: Option<A>)
        requires
            old(self).wf(),
        ensures
            final(self).wf(),
            match r {
                Some(v) => old(self).remaining().len() > 0 && v == old(self).remaining().first()
                    && final(self).remaining() == old(self).remaining().drop_first(),
                None => old(self).remaining().len() == 0 && final(self).remaining() == old(
                    self,
                ).remaining(),
            },
    {
        let r = self.array.remove(0);
        proof {
            if old(self).remaining().len() > 0 {
                assert(old(self).remaining().remove(0) =~= old(self).remaining().drop_first());
            }
        }
        r
    }

    /// Yield the last remaining element, or `None` when none remain.
    pub fn next_back(&mut self) -> (r: Option<A>)
        requires
            old(self).wf(),
        ensures
            final(self).wf(),
            match r {
                Some(v) => old(self).remaining().len() > 0 && v == old(self).remaining().last()
                    && final(self).remaining() == old(self).remaining().drop_last(),
                None => old(self).remaining().len() == 0 && final(self).remaining() == old(
                    self,
                ).remaining(),
            },
    {
        self.array.pop()
    }
}

} // verus!
