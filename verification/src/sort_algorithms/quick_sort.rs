//! Quick sort.

use crate::order::less;
use crate::order::ranks;
use crate::order::sorted;
use crate::sort_algorithms::sort::Sort;
use crate::sort_algorithms::sort::lemma_swap_rearranges;
use crate::sort_algorithms::sort::rearranged;
use vstd::prelude::*;

verus! {

/// Sorts by splitting the values around the last one, which lands at its
/// final place, and sorting what stands before and after it.
pub struct QuickSort;

impl<T: PartialOrd> Sort<T> for QuickSort {
    fn sort(vector: &mut Vec<T>) {
        Self::quick_sort(vector.as_mut_slice())
    }
}

/// Every value of a rearrangement occurs in what was rearranged.
pub proof fn lemma_rearranged_member<T>(a: Seq<T>, b: Seq<T>, k: int)
    requires
        rearranged(a, b),
        0 <= k < a.len(),
    ensures
        b.contains(a[k]),
        a.len() == b.len(),
{
    vstd::seq_lib::to_multiset_contains(a, a[k]);
    vstd::seq_lib::to_multiset_contains(b, a[k]);
    vstd::seq_lib::to_multiset_len(a);
    vstd::seq_lib::to_multiset_len(b);
}

/// Rearranging the parts of a sequence rearranges the sequence.
pub proof fn lemma_rearranged_parts<T>(a: Seq<T>, b: Seq<T>, c: Seq<T>, d: Seq<T>)
    requires
        rearranged(a, c),
        rearranged(b, d),
    ensures
        rearranged(a + b, c + d),
{
    vstd::seq_lib::lemma_multiset_commutative(a, b);
    vstd::seq_lib::lemma_multiset_commutative(c, d);
}

impl QuickSort {
    fn quick_sort<T: PartialOrd>(vector: &mut [T])
        ensures
            final(vector)@.len() == old(vector)@.len(),
            rearranged(final(vector)@, old(vector)@),
            ranks::<T>() ==> sorted(final(vector)@),
        decreases old(vector)@.len(),
    {
        if vector.len() <= 1 {
            return ;
        }
        let index = Self::partition(vector);
        let ghost split = vector@;
        let ghost pivot = split[index as int];
        let (left, rest) = vector.split_at_mut(index);
        let ghost low = left@;
        let ghost high = rest@.skip(1);
        let (middle, right) = rest.split_at_mut(1);
        assert(middle@ =~= seq![pivot]);
        Self::quick_sort(left);
        Self::quick_sort(right);
        proof {
            assert(split =~= low + (seq![pivot] + high));
            lemma_rearranged_parts(middle@, right@, seq![pivot], high);
            lemma_rearranged_parts(left@, middle@ + right@, low, seq![pivot] + high);
            if ranks::<T>() {
                let n = vector@.len() as int;
                assert forall|k: int| 0 <= k < n implies if k < index {
                    less(#[trigger] vector@[k], pivot)
                } else {
                    !less(vector@[k], pivot)
                } by {
                    if k < index {
                        lemma_rearranged_member(left@, low, k);
                    } else if k > index {
                        lemma_rearranged_member(right@, high, k - index - 1);
                    }
                }
            }
        }
    }

    /// Moves the values that come before the last one to the front and the
    /// last one right behind them; returns where it now stands.
    fn partition<T: PartialOrd>(vector: &mut [T]) -> (index: usize)
        requires
            old(vector)@.len() > 0,
        ensures
            index < old(vector)@.len(),
            final(vector)@.len() == old(vector)@.len(),
            rearranged(final(vector)@, old(vector)@),
            final(vector)@[index as int] == old(vector)@.last(),
            ranks::<T>() ==> forall|k: int|
                0 <= k < old(vector)@.len() ==> if k < index {
                    less(#[trigger] final(vector)@[k], old(vector)@.last())
                } else {
                    !less(final(vector)@[k], old(vector)@.last())
                },
    {
        let n = vector.len();
        let ghost pivot = vector@.last();
        let mut i: usize = 0;
        let mut j: usize = 0;
        while j < n - 1
            invariant
                n == vector@.len(),
                n > 0,
                i <= j <= n - 1,
                vector@[n - 1] == pivot,
                rearranged(vector@, old(vector)@),
                ranks::<T>() ==> forall|k: int|
                    0 <= k < j ==> if k < i {
                        less(#[trigger] vector@[k], pivot)
                    } else {
                        !less(vector@[k], pivot)
                    },
            decreases n - 1 - j,
        {
            if vector[j] < vector[n - 1] {
                let ghost before = vector@;
                vector.swap(i, j);
                proof {
                    lemma_swap_rearranges(before, i as int, j as int);
                }
                i += 1;
            }
            j += 1;
        }
        let ghost before = vector@;
        vector.swap(i, n - 1);
        proof {
            lemma_swap_rearranges(before, i as int, n - 1);
        }
        i
    }
}

} // verus!
