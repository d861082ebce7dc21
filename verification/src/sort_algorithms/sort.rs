//! What it means to sort a vector in place.

use crate::order::ranks;
use crate::order::sorted;
use vstd::prelude::*;

verus! {

/// The same values, each as often, in some order.
pub open spec fn rearranged<T>(a: Seq<T>, b: Seq<T>) -> bool {
    a.to_multiset() == b.to_multiset()
}

/// An in-place sort.
///
/// Whatever the comparison operators do, the vector afterwards holds the
/// values it held before.  Where they rank the values, it holds them in
/// order.
pub trait Sort<T: PartialOrd> {
    /// Sorts `vector` in place.
    fn sort(vector: &mut Vec<T>)
        ensures
            rearranged(final(vector)@, old(vector)@),
            ranks::<T>() ==> sorted(final(vector)@),
    ;
}

/// Trusted: `slice::swap` of the standard library.  Exchanges the values at
/// two positions and leaves the others alone; positions past the end panic.
pub assume_specification<Item>[ <[Item]>::swap ](slice: &mut [Item], a: usize, b: usize)
    requires
        a < old(slice)@.len(),
        b < old(slice)@.len(),
    ensures
        final(slice)@ == old(slice)@.update(a as int, old(slice)@[b as int]).update(
            b as int,
            old(slice)@[a as int],
        ),
;

/// Exchanging two values of a sequence rearranges it.
pub proof fn lemma_swap_rearranges<T>(s: Seq<T>, a: int, b: int)
    requires
        0 <= a < s.len(),
        0 <= b < s.len(),
    ensures
        rearranged(s.update(a, s[b]).update(b, s[a]), s),
{
    let mid = s.update(a, s[b]);
    vstd::seq_lib::to_multiset_update(s, a, s[b]);
    vstd::seq_lib::to_multiset_update(mid, b, s[a]);
    vstd::seq_lib::to_multiset_contains(s, s[a]);
    assert(mid.update(b, s[a]).to_multiset() =~= s.to_multiset());
}

} // verus!
