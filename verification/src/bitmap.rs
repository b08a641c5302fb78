//! A fixed-size set of `N` bits, packed eight to a byte.
//!
//! The bitmap is the occupancy discriminant used by the sparse chunk: bit `i`
//! records whether slot `i` of the companion value array is live. Bits at
//! positions `N` and above are kept at zero at all times.

use vstd::prelude::*;

verus! {

/// The number of bytes needed to store `bits` bits.
pub fn bytes_for_bits(bits: usize) -> (r: usize)
    requires
        bits <= usize::MAX - 7,
    ensures
        r == (bits + 7) / 8,
{
    (bits + 7) / 8
}

/// Whether bit `k` of `byte` is set.
pub open spec fn nth_bit(byte: u8, k: u8) -> bool {
    byte & (1u8 << k) != 0
}

/// The number of `true` entries in `s`.
pub open spec fn popcount(s: Seq<bool>) -> nat
    decreases s.len(),
{
    if s.len() == 0 {
        0
    } else {
        popcount(s.drop_last()) + if s.last() {
            1nat
        } else {
            0nat
        }
    }
}

pub proof fn lemma_popcount_bound(s: Seq<bool>)
    ensures
        popcount(s) <= s.len(),
    decreases s.len(),
{
    if s.len() > 0 {
        lemma_popcount_bound(s.drop_last());
    }
}

/// A count of zero means no entry is `true`, and conversely.
pub proof fn lemma_popcount_zero(s: Seq<bool>)
    ensures
        popcount(s) == 0 <==> (forall|i: int| 0 <= i < s.len() ==> !s[i]),
    decreases s.len(),
{
    if s.len() > 0 {
        lemma_popcount_zero(s.drop_last());
        if popcount(s) == 0 {
            assert(forall|i: int| 0 <= i < s.len() - 1 ==> !s.drop_last()[i]);
            assert(forall|i: int| 0 <= i < s.len() ==> !s[i]) by {
                assert(forall|i: int| 0 <= i < s.len() - 1 ==> s[i] == s.drop_last()[i]);
            }
        }
    }
}

/// A compact array of `N` bits.
pub struct Bitmap<const N: usize> {
    bytes: Vec<u8>,
}

impl<const N: usize> View for Bitmap<N> {
    type V = Seq<bool>;

    closed spec fn view(&self) -> Seq<bool> {
        Seq::new(N as nat, |i: int| nth_bit(self.bytes@[i / 8], (i % 8) as u8))
    }
}

impl<const N: usize> Bitmap<N> {
    /// Structural invariant: the byte store is exactly large enough for `N`
    /// bits and every bit at position `N` or above is zero.
    pub closed spec fn wf(&self) -> bool {
        &&& N + 7 <= usize::MAX
        &&& self.bytes@.len() == (N + 7) / 8
        &&& forall|bi: int, k: u8|
            0 <= bi < self.bytes@.len() && k < 8 && N <= 8 * bi + k ==> !(#[trigger] nth_bit(
                self.bytes@[bi],
                k,
            ))
    }

    proof fn lemma_byte_index(i: int)
        requires
            0 <= i < N,
            N + 7 <= usize::MAX,
        ensures
            0 <= i / 8 < (N + 7) / 8,
            0 <= i % 8 < 8,
            i == 8 * (i / 8) + i % 8,
    {
        assert(0 <= i / 8 < (N + 7) / 8 && 0 <= i % 8 < 8 && i == 8 * (i / 8) + i % 8) by (nonlinear_arith)
            requires
                0 <= i < N,
        ;
    }

    /// Construct an empty bitmap.
    pub fn new() -> (r: Self)
        requires
            N + 7 <= usize::MAX,
        ensures
            r.wf(),
            r@ == Seq::new(N as nat, |i: int| false),
            popcount(r@) == 0,
    {
        let n_bytes = bytes_for_bits(N);
        let mut bytes: Vec<u8> = Vec::new();
        let mut k: usize = 0;
        while k < n_bytes
            invariant
                bytes@.len() == k,
                k <= n_bytes,
                forall|j: int| 0 <= j < k ==> bytes@[j] == 0u8,
            decreases n_bytes - k,
        {
            bytes.push(0u8);
            k = k + 1;
        }
        let r = Bitmap { bytes };
        proof {
            assert(forall|b: u8| (0u8 & (1u8 << b)) == 0u8) by (bit_vector);
            assert forall|i: int| 0 <= i < N implies !(r@[i]) by {
                Self::lemma_byte_index(i);
            }
            assert(r@ =~= Seq::new(N as nat, |i: int| false));
            lemma_popcount_zero(r@);
        }
        r
    }

    /// Get the value of the bit at `index`.
    pub fn get(&self, index: usize) -> (r: bool)
        requires
            self.wf(),
            index < N,
        ensures
            r == self@[index as int],
    {
        proof {
            Self::lemma_byte_index(index as int);
        }
        let byte = self.bytes[index / 8];
        byte & (1u8 << ((index % 8) as u8)) != 0
    }

    /// Set the bit at `index` to `value`, returning the bit's previous value.
    pub fn set(&mut self, index: usize, value: bool) -> (prev: bool)
        requires
            old(self).wf(),
            index < N,
        ensures
            final(self).wf(),
            prev == old(self)@[index as int],
            final(self)@ == old(self)@.update(index as int, value),
    {
        proof {
            Self::lemma_byte_index(index as int);
        }
        let byte_ix = index / 8;
        let bit_ix = (index % 8) as u8;
        let old_byte = self.bytes[byte_ix];
        let mask: u8 = 1u8 << bit_ix;
        let new_byte: u8 = if value {
            old_byte | mask
        } else {
            old_byte & !mask
        };
        self.bytes[byte_ix] = new_byte;
        proof {
            let b = old_byte;
            let k = bit_ix;
            assert(forall|j: u8|
                j < 8 && k < 8 ==> ((b | (1u8 << k)) & (1u8 << j) != 0) == (j == k || (b & (1u8 << j)
                    != 0))) by (bit_vector);
            assert(forall|j: u8|
                j < 8 && k < 8 ==> ((b & !(1u8 << k)) & (1u8 << j) != 0) == (j != k && (b & (1u8
                    << j) != 0))) by (bit_vector);
            assert forall|i: int| 0 <= i < N implies self@[i] == old(self)@.update(
                index as int,
                value,
            )[i] by {
                Self::lemma_byte_index(i);
                if i / 8 == byte_ix {
                    if i != index {
                        assert(i % 8 != index % 8);
                    }
                }
            }
            assert(self@ =~= old(self)@.update(index as int, value));
            assert forall|bi: int, k: u8|
                0 <= bi < self.bytes@.len() && k < 8 && N <= 8 * bi + k implies !(#[trigger] nth_bit(
                self.bytes@[bi],
                k,
            )) by {
                assert(!nth_bit(old(self).bytes@[bi], k));
                if bi == byte_ix {
                    assert(8 * bi + bit_ix == index);
                }
            }
        }
        (old_byte & mask) != 0
    }

    /// Count the number of set bits.
    pub fn len(&self) -> (r: usize)
        requires
            self.wf(),
        ensures
            r == popcount(self@),
    {
        let mut count: usize = 0;
        let mut i: usize = 0;
        proof {
            assert(self@.take(0) =~= Seq::<bool>::empty());
        }
        while i < N
            invariant
                self.wf(),
                i <= N,
                count == popcount(self@.take(i as int)),
                count <= i,
            decreases N - i,
        {
            proof {
                assert(self@.take(i + 1).drop_last() =~= self@.take(i as int));
                lemma_popcount_bound(self@.take(i as int));
            }
            if self.get(i) {
                count = count + 1;
            }
            i = i + 1;
        }
        proof {
            assert(self@.take(N as int) =~= self@);
        }
        count
    }

    /// Whether no bit is set.
    pub fn is_empty(&self) -> (r: bool)
        requires
            self.wf(),
        ensures
            r <==> popcount(self@) == 0,
            r <==> (forall|i: int| 0 <= i < N ==> !self@[i]),
    {
        proof {
            lemma_popcount_zero(self@);
        }
        self.len() == 0
    }

    /// The smallest set index, if any bit is set.
    pub fn first_index(&self) -> (r: Option<usize>)
        requires
            self.wf(),
        ensures
            match r {
                Some(i) => i < N && self@[i as int] && (forall|j: int| 0 <= j < i ==> !self@[j]),
                None => forall|j: int| 0 <= j < N ==> !self@[j],
            },
    {
        let mut i: usize = 0;
        while i < N
            invariant
                self.wf(),
                i <= N,
                forall|j: int| 0 <= j < i ==> !self@[j],
            decreases N - i,
        {
            if self.get(i) {
                return Some(i);
            }
            i = i + 1;
        }
        None
    }

    /// Iterate over the indices of the set bits, in ascending order.
    pub fn into_iter(self) -> (it: Iter<N>)
        requires
            self.wf(),
        ensures
            it.wf(),
            it.bits() == self@,
            it.pos() == 0,
    {
        Iter { index: 0, data: self }
    }
}

/// The view of a bitmap has exactly `N` entries.
pub broadcast proof fn lemma_bitmap_view_len<const N: usize>(bm: &Bitmap<N>)
    ensures
        (#[trigger] bm@).len() == N,
{
}

impl<const N: usize> Clone for Bitmap<N> {
    /// Clone by copying the byte store; the copy holds the same bits.
    fn clone(&self) -> (r: Self)
        ensures
            r@ == self@,
            self.wf() ==> r.wf(),
    {
        let r = Bitmap { bytes: self.bytes.clone() };
        proof {
            assert forall|i: int| 0 <= i < self.bytes@.len() implies r.bytes@[i]
                == self.bytes@[i] by {
                assert(cloned::<u8>(self.bytes@[i], r.bytes@[i]));
            }
            assert(r.bytes@ =~= self.bytes@);
            assert(r@ =~= self@);
        }
        r
    }
}

/// A well-formed iterator's position lies between `0` and `N`.
pub broadcast proof fn lemma_iter_pos_bounds<const N: usize>(it: &Iter<N>)
    requires
        it.wf(),
    ensures
        0 <= #[trigger] it.pos() <= N,
{
}

/// An iterator over the indices of the set bits of a bitmap, ascending.
pub struct Iter<const N: usize> {
    index: usize,
    data: Bitmap<N>,
}

impl<const N: usize> Iter<N> {
    /// The bits being iterated over.
    pub closed spec fn bits(&self) -> Seq<bool> {
        self.data@
    }

    /// The position the scan has reached: all set indices below it have been
    /// yielded already.
    pub closed spec fn pos(&self) -> int {
        self.index as int
    }

    pub closed spec fn wf(&self) -> bool {
        &&& self.data.wf()
        &&& self.index <= N
    }

    /// Yield the smallest set index not yet visited, advancing past it.
    pub fn next(&mut self) -> (r: Option<usize>)
        requires
            old(self).wf(),
        ensures
            final(self).wf(),
            final(self).bits() == old(self).bits(),
            match r {
                Some(i) => {
                    &&& old(self).pos() <= i < N
                    &&& old(self).bits()[i as int]
                    &&& forall|j: int| old(self).pos() <= j < i ==> !old(self).bits()[j]
                    &&& final(self).pos() == i + 1
                },
                None => {
                    &&& (forall|j: int| old(self).pos() <= j < N ==> !old(self).bits()[j])
                    &&& final(self).pos() == N
                },
            },
    {
        let ghost start = self.index as int;
        let ghost bits0 = self.data@;
        while self.index < N
            invariant
                self.wf(),
                self.data@ == bits0,
                self.data == old(self).data,
                start == old(self).index as int,
                start <= self.index <= N,
                forall|j: int| start <= j < self.index ==> !bits0[j],
            decreases N - self.index,
        {
            let i = self.index;
            self.index = i + 1;
            if self.data.get(i) {
                return Some(i);
            }
        }
        None
    }
}

} // verus!
