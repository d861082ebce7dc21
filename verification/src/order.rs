//! The order of a type as its comparison operators compute it, and the
//! laws under which sorting and searching by comparison are sound.

use std::cmp::Ordering;
use vstd::prelude::*;
use vstd::std_specs::cmp::OrdSpec;
use vstd::std_specs::cmp::PartialEqSpec;
use vstd::std_specs::cmp::PartialOrdSpec;

verus! {

/// `a` comes strictly before `b` in the order of `T`.
pub open spec fn less<T: PartialOrd>(a: T, b: T) -> bool {
    a.partial_cmp_spec(&b) == Some(Ordering::Less)
}

/// `a` comes strictly after `b` in the order of `T`.
pub open spec fn greater<T: PartialOrd>(a: T, b: T) -> bool {
    a.partial_cmp_spec(&b) == Some(Ordering::Greater)
}

/// The comparison operators of `T` compute its order, and that order ranks
/// the values: "before" is never mutual, "not before" is transitive, and
/// "after" is "before" read backwards.  Integers satisfy this; floating
/// point numbers, because of NaN, do not.
pub open spec fn ranks<T: PartialOrd>() -> bool {
    &&& T::obeys_partial_cmp_spec()
    &&& forall|a: T, b: T| #[trigger] less(a, b) ==> !less(b, a)
    &&& forall|a: T, b: T, c: T| !#[trigger] less(a, b) && !#[trigger] less(b, c) ==> !less(a, c)
    &&& forall|a: T, b: T| #[trigger] greater(a, b) <==> less(b, a)
}

/// The `==` of `T` computes its equality, and values that are equal are
/// neighbours in the order: neither comes before the other.
pub open spec fn equates<T: PartialOrd>() -> bool {
    &&& T::obeys_eq_spec()
    &&& forall|a: T, b: T| #[trigger] a.eq_spec(&b) ==> !less(a, b) && !less(b, a)
}

/// No value of `s` comes strictly before one that stands earlier.
pub open spec fn sorted<T: PartialOrd>(s: Seq<T>) -> bool {
    forall|i: int, j: int| 0 <= i < j < s.len() ==> !less(#[trigger] s[j], #[trigger] s[i])
}

/// A type whose operators compute a total order, in the sense of the
/// standard comparison laws, ranks its values.  All integer types do.
pub proof fn lemma_total_order_ranks<T: Ord>()
    requires
        vstd::laws_cmp::obeys_cmp::<T>(),
    ensures
        ranks::<T>(),
{
    reveal(vstd::laws_cmp::obeys_partial_cmp_spec_properties);
    reveal(vstd::laws_cmp::obeys_cmp_partial_ord);
    reveal(vstd::laws_cmp::obeys_cmp_ord);
    reveal(vstd::laws_eq::obeys_eq_spec_properties);
}

/// In a sequence whose neighbours are in order, all values are.
pub proof fn lemma_sorted_by_neighbours<T: PartialOrd>(s: Seq<T>)
    requires
        ranks::<T>(),
        forall|i: int| 0 <= i < s.len() - 1 ==> !less(#[trigger] s[i + 1], s[i]),
    ensures
        sorted(s),
{
    assert forall|i: int, j: int| 0 <= i < j < s.len() implies !less(
        #[trigger] s[j],
        #[trigger] s[i],
    ) by {
        lemma_sorted_step(s, i, j);
    }
}

proof fn lemma_sorted_step<T: PartialOrd>(s: Seq<T>, i: int, j: int)
    requires
        ranks::<T>(),
        forall|i: int| 0 <= i < s.len() - 1 ==> !less(#[trigger] s[i + 1], s[i]),
        0 <= i < j < s.len(),
    ensures
        !less(s[j], s[i]),
    decreases j - i,
{
    let k = j - 1;
    assert(!less(s[k + 1], s[k]));
    if k > i {
        lemma_sorted_step(s, i, k);
    }
}

} // verus!
