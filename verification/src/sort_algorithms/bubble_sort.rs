//! Bubble sort.

use crate::order::lemma_sorted_by_neighbours;
use crate::order::less;
use crate::order::ranks;
use crate::order::sorted;
use crate::sort_algorithms::sort::Sort;
use crate::sort_algorithms::sort::lemma_swap_rearranges;
use crate::sort_algorithms::sort::rearranged;
use vstd::prelude::*;

verus! {

/// Sorts by sweeping over the vector and exchanging neighbours that are out
/// of order, until a sweep finds nothing to exchange.
pub struct BubbleSort;

impl<T: PartialOrd> Sort<T> for BubbleSort {
    fn sort(vector: &mut Vec<T>) {
        let n = vector.len();
        let mut sweep: usize = 0;
        while sweep < n
            invariant
                n == vector@.len(),
                sweep <= n,
                rearranged(vector@, old(vector)@),
                ranks::<T>() ==> forall|i: int, j: int|
                    n - sweep <= j < n && 0 <= i < j ==> !less(
                        #[trigger] vector@[j],
                        #[trigger] vector@[i],
                    ),
            ensures
                rearranged(vector@, old(vector)@),
                ranks::<T>() ==> sorted(vector@),
            decreases n - sweep,
        {
            let mut in_order = true;
            let mut j: usize = 0;
            let ghost top = n - sweep - 1;
            while j < n - 1
                invariant
                    n == vector@.len(),
                    sweep < n,
                    top == n - sweep - 1,
                    j <= n - 1,
                    rearranged(vector@, old(vector)@),
                    ranks::<T>() ==> forall|i: int, k: int|
                        n - sweep <= k < n && 0 <= i < k ==> !less(
                            #[trigger] vector@[k],
                            #[trigger] vector@[i],
                        ),
                    ranks::<T>() ==> forall|m: int|
                        0 <= m < j ==> !less(vector@[j as int], #[trigger] vector@[m]),
                    ranks::<T>() && j > top ==> forall|m: int|
                        0 <= m < top ==> !less(vector@[top], #[trigger] vector@[m]),
                    ranks::<T>() && in_order ==> forall|m: int|
                        0 <= m < j ==> !less(#[trigger] vector@[m + 1], vector@[m]),
                decreases n - 1 - j,
            {
                let ghost before = vector@;
                if vector[j + 1] < vector[j] {
                    vector.swap(j + 1, j);
                    in_order = false;
                    proof {
                        lemma_swap_rearranges(before, j + 1, j as int);
                    }
                } else {
                    proof {
                        if ranks::<T>() {
                            assert(!less(before[j + 1], before[j as int]));
                        }
                    }
                }
                j += 1;
            }
            if in_order {
                proof {
                    if ranks::<T>() {
                        lemma_sorted_by_neighbours(vector@);
                    }
                }
                break ;
            }
            sweep += 1;
        }
    }
}

} // verus!
