//! Selection sort.

use crate::order::less;
use crate::order::ranks;
use crate::sort_algorithms::sort::Sort;
use crate::sort_algorithms::sort::lemma_swap_rearranges;
use crate::sort_algorithms::sort::rearranged;
use vstd::prelude::*;

verus! {

/// Sorts by repeatedly moving the smallest of the values not yet placed to
/// the end of those already placed.
pub struct SelectionSort;

impl<T: PartialOrd> Sort<T> for SelectionSort {
    fn sort(vector: &mut Vec<T>) {
        let n = vector.len();
        let mut i: usize = 0;
        while i < n
            invariant
                n == vector@.len(),
                i <= n,
                rearranged(vector@, old(vector)@),
                ranks::<T>() ==> forall|a: int, b: int|
                    0 <= a < i && a < b < n ==> !less(#[trigger] vector@[b], #[trigger] vector@[a]),
            decreases n - i,
        {
            let mut smallest_index = i;
            let mut j: usize = i + 1;
            while j < n
                invariant
                    n == vector@.len(),
                    i < j <= n,
                    i <= smallest_index < j,
                    ranks::<T>() ==> forall|m: int|
                        i <= m < j ==> !less(#[trigger] vector@[m], vector@[smallest_index as int]),
                decreases n - j,
            {
                if vector[j] < vector[smallest_index] {
                    smallest_index = j;
                }
                j += 1;
            }
            let ghost before = vector@;
            vector.swap(i, smallest_index);
            proof {
                lemma_swap_rearranges(before, i as int, smallest_index as int);
            }
            i += 1;
        }
    }
}

} // verus!
