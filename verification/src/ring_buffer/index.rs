//! Wrapping raw indices into an `N`-slot backing store.

use vstd::prelude::*;

verus! {

/// A physical slot index in `[0, N)` with wrapping arithmetic, used to walk
/// a ring buffer's backing store across the wrap point.
#[derive(Clone, Copy)]
pub struct RawIndex<const N: usize>(usize);

impl<const N: usize> RawIndex<N> {
    /// The index as a mathematical value.
    pub closed spec fn value(&self) -> int {
        self.0 as int
    }

    /// Structural invariant: the index lies in `[0, N)`.
    pub closed spec fn wf(&self) -> bool {
        self.0 < N
    }

    /// Construct a raw index from a position already in range.
    pub fn new(index: usize) -> (r: Self)
        requires
            index < N,
        ensures
            r.wf(),
            r.value() == index,
    {
        RawIndex(index)
    }

    /// The index as a `usize`.
    pub fn to_usize(self) -> (r: usize)
        ensures
            r == self.value(),
    {
        self.0
    }

    /// Increment the index, wrapping at `N`, and return a copy of the index
    /// from before the increment.
    pub fn inc(&mut self) -> (r: Self)
        requires
            old(self).wf(),
        ensures
            final(self).wf(),
            r == *old(self),
            final(self).value() == if old(self).value() + 1 < N {
                old(self).value() + 1
            } else {
                0
            },
    {
        let prev = *self;
        self.0 = if self.0 == N - 1 {
            0
        } else {
            self.0 + 1
        };
        prev
    }

    /// Decrement the index, wrapping below zero, and return a copy of the
    /// new value.
    pub fn dec(&mut self) -> (r: Self)
        requires
            old(self).wf(),
        ensures
            final(self).wf(),
            r == *final(self),
            final(self).value() == if old(self).value() == 0 {
                N - 1
            } else {
                old(self).value() - 1
            },
    {
        self.0 = if self.0 == 0 {
            N - 1
        } else {
            self.0 - 1
        };
        *self
    }

    /// Add an offset of at most `N`, wrapping at `N`.
    pub fn add(self, other: usize) -> (r: Self)
        requires
            self.wf(),
            other <= N,
        ensures
            r.wf(),
            r.value() == if self.value() + other < N {
                self.value() + other
            } else {
                self.value() + other - N
            },
    {
        if other >= N - self.0 {
            RawIndex(other - (N - self.0))
        } else {
            RawIndex(self.0 + other)
        }
    }

    /// Subtract an offset of at most `N`, wrapping below zero.
    pub fn sub(self, other: usize) -> (r: Self)
        requires
            self.wf(),
            other <= N,
        ensures
            r.wf(),
            r.value() == if self.value() - other >= 0 {
                self.value() - other
            } else {
                self.value() - other + N
            },
    {
        if other > self.0 {
            RawIndex(self.0 + (N - other))
        } else {
            RawIndex(self.0 - other)
        }
    }
}

/// A well-formed raw index lies in `[0, N)`.
pub broadcast proof fn lemma_raw_index_bounds<const N: usize>(ix: &RawIndex<N>)
    requires
        ix.wf(),
    ensures
        0 <= #[trigger] ix.value() < N,
{
}

} // verus!
