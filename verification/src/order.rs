//! Ordering vocabulary for the ordered-insertion operations.
//!
//! The containers are generic in their element type, so ordered insertion
//! can only promise a sorted result when the element type's comparison
//! behaves like a total order. These spec functions name exactly what is
//! assumed of it.

use core::cmp::Ordering;
use vstd::prelude::*;
use vstd::std_specs::cmp::PartialOrdSpec;

verus! {

/// The sequence is sorted: no earlier element compares greater than a later
/// one.
pub open spec fn sorted_by_le<A: PartialOrd>(s: Seq<A>) -> bool {
    forall|i: int, j: int|
        0 <= i < j < s.len() ==> (#[trigger] s[i].partial_cmp_spec(&s[j])) != Some(Ordering::Greater)
}

/// The element type's comparison is a total order: every pair compares,
/// comparison is antisymmetric, and "not greater" is transitive.
pub open spec fn total_order<A: PartialOrd>() -> bool {
    &&& forall|x: A, y: A| (#[trigger] x.partial_cmp_spec(&y)) is Some
    &&& forall|x: A, y: A|
        (#[trigger] x.partial_cmp_spec(&y)) == Some(Ordering::Less) <==> y.partial_cmp_spec(&x)
            == Some(Ordering::Greater)
    &&& forall|x: A, y: A|
        (#[trigger] x.partial_cmp_spec(&y)) == Some(Ordering::Equal) <==> y.partial_cmp_spec(&x)
            == Some(Ordering::Equal)
    &&& forall|x: A, y: A, z: A|
        #![trigger x.partial_cmp_spec(&y), y.partial_cmp_spec(&z)]
        x.partial_cmp_spec(&y) != Some(Ordering::Greater) && y.partial_cmp_spec(&z) != Some(
            Ordering::Greater,
        ) ==> x.partial_cmp_spec(&z) != Some(Ordering::Greater)
}

/// Inserting `v` into a sorted sequence at the first position whose element
/// is not less than `v` keeps the sequence sorted, provided the comparison
/// is a total order.
pub proof fn lemma_sorted_insert<A: PartialOrd>(s: Seq<A>, k: int, v: A)
    requires
        0 <= k <= s.len(),
        total_order::<A>(),
        sorted_by_le(s),
        forall|j: int|
            0 <= j < k ==> (#[trigger] s[j].partial_cmp_spec(&v)) == Some(Ordering::Less),
        k < s.len() ==> s[k].partial_cmp_spec(&v) != Some(Ordering::Less),
    ensures
        sorted_by_le(s.insert(k, v)),
{
    let t = s.insert(k, v);
    assert forall|i: int, j: int| 0 <= i < j < t.len() implies (#[trigger] t[i].partial_cmp_spec(
        &t[j],
    )) != Some(Ordering::Greater) by {
        if i < k && j < k {
            assert(t[i] == s[i] && t[j] == s[j]);
        } else if i < k && j == k {
            assert(t[i] == s[i] && t[j] == v);
            assert(s[i].partial_cmp_spec(&v) == Some(Ordering::Less));
        } else if i < k && j > k {
            assert(t[i] == s[i] && t[j] == s[j - 1]);
            assert(s[i].partial_cmp_spec(&s[j - 1]) != Some(Ordering::Greater));
        } else if i == k {
            assert(t[i] == v && t[j] == s[j - 1]);
            assert(k < s.len());
            if s[k].partial_cmp_spec(&v) == Some(Ordering::Greater) {
                assert(v.partial_cmp_spec(&s[k]) == Some(Ordering::Less));
            } else {
                assert(s[k].partial_cmp_spec(&v) is Some);
                assert(s[k].partial_cmp_spec(&v) == Some(Ordering::Equal));
                assert(v.partial_cmp_spec(&s[k]) == Some(Ordering::Equal));
            }
            assert(v.partial_cmp_spec(&s[k]) != Some(Ordering::Greater));
            if j - 1 > k {
                assert(s[k].partial_cmp_spec(&s[j - 1]) != Some(Ordering::Greater));
            } else {
                assert(t[j] == s[k]);
            }
        } else {
            assert(t[i] == s[i - 1] && t[j] == s[j - 1]);
            assert(s[i - 1].partial_cmp_spec(&s[j - 1]) != Some(Ordering::Greater));
        }
    }
}

} // verus!
