//! Merge sort, merging in place.

use crate::order::greater;
use crate::order::less;
use crate::order::ranks;
use crate::sort_algorithms::sort::Sort;
use crate::sort_algorithms::sort::rearranged;
use vstd::prelude::*;

verus! {

/// Sorts by sorting each half and merging the two halves in place: a value
/// of the right half that belongs earlier is taken out and put back in
/// front of the left half's remaining values.
pub struct MergeSort;

/// The values at positions `lo` up to, not including, `hi` are in order.
pub open spec fn sorted_between<T: PartialOrd>(s: Seq<T>, lo: int, hi: int) -> bool {
    forall|a: int, b: int| lo <= a < b < hi ==> !less(#[trigger] s[b], #[trigger] s[a])
}

/// No value at a position from `mid` up to `hi` comes before one at a
/// position from `lo` up to `mid`.
pub open spec fn split_between<T: PartialOrd>(s: Seq<T>, lo: int, mid: int, hi: int) -> bool {
    forall|a: int, b: int| lo <= a < mid <= b < hi ==> !less(#[trigger] s[b], #[trigger] s[a])
}

impl<T: PartialOrd> Sort<T> for MergeSort {
    fn sort(vector: &mut Vec<T>) {
        if vector.len() == 0 {
            return ;
        }
        let last = vector.len() - 1;
        Self::merge_sort(vector, 0, last)
    }
}

impl MergeSort {
    /// Sorts the values at positions `start` to `end`, both included, and
    /// leaves the others where they are.
    fn merge_sort<T: PartialOrd>(vector: &mut Vec<T>, start: usize, end: usize)
        requires
            start <= end < old(vector)@.len(),
        ensures
            final(vector)@.len() == old(vector)@.len(),
            rearranged(final(vector)@, old(vector)@),
            forall|k: int|
                0 <= k < start || end < k < old(vector)@.len() ==> final(vector)@[k] == old(
                    vector,
                )@[k],
            ranks::<T>() ==> sorted_between(final(vector)@, start as int, end + 1),
        decreases end - start,
    {
        if end - start == 0 {
            return ;
        }
        let mid = start + (end - start) / 2;
        Self::merge_sort(vector, start, mid);
        Self::merge_sort(vector, mid + 1, end);
        let n = vector.len();
        let mut i = start;
        let mut j = mid + 1;
        while i <= j && j <= end
            invariant
                start <= i <= j + 1,
                j <= end + 1,
                end < n == vector@.len(),
                vector@.len() == old(vector)@.len(),
                rearranged(vector@, old(vector)@),
                forall|k: int|
                    0 <= k < start || end < k < old(vector)@.len() ==> vector@[k] == old(
                        vector,
                    )@[k],
                ranks::<T>() ==> sorted_between(vector@, start as int, i as int),
                ranks::<T>() ==> split_between(vector@, start as int, i as int, end + 1),
                ranks::<T>() ==> sorted_between(vector@, i as int, j as int),
                ranks::<T>() ==> sorted_between(vector@, j as int, end + 1),
            decreases end + 2 - i,
        {
            let ghost before = vector@;
            if vector[i] > vector[j] {
                let k = vector.remove(j);
                vector.insert(i, k);
                proof {
                    let taken = before[j as int];
                    vstd::seq_lib::to_multiset_remove(before, j as int);
                    vstd::seq_lib::to_multiset_insert(before.remove(j as int), i as int, taken);
                    vstd::seq_lib::to_multiset_contains(before, taken);
                    assert(vector@.to_multiset() =~= before.to_multiset());
                    if ranks::<T>() {
                        let head = before[i as int];
                        assert(greater(head, taken));
                    }
                }
                j += 1;
            } else {
                proof {
                    if ranks::<T>() {
                        let head = before[i as int];
                        let other = before[j as int];
                        assert(!greater(head, other));
                    }
                }
            }
            i += 1;
        }
    }
}

} // verus!
