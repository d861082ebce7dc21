//! What a trie lookup answers, stated over the set of stored keys alone,
//! and the laws that follow for any trie whose `insert` adds one key to
//! that set and whose `search` answers as stated here.

use vstd::prelude::*;

verus! {

/// `m` is the least of the members of `s` that begin with `k`: it is such a
/// member, and every such member begins with `m`.
pub open spec fn leads(s: Set<Seq<bool>>, k: Seq<bool>, m: Seq<bool>) -> bool {
    &&& s.contains(m)
    &&& k.is_prefix_of(m)
    &&& forall|t: Seq<bool>| #[trigger] s.contains(t) && k.is_prefix_of(t) ==> m.is_prefix_of(t)
}

/// What a lookup of `k` answers on a trie that stores exactly the set `s`.
///
/// The walk stops at the node in whose edge `k` runs out and answers with
/// that node's flag.  In terms of the stored set alone: some stored key
/// begins with `k` and is itself the beginning of every stored key that
/// begins with `k`.  A stored key is always reported; a string that no
/// stored key begins with never is.
pub open spec fn reports(s: Set<Seq<bool>>, k: Seq<bool>) -> bool {
    exists|m: Seq<bool>| leads(s, k, m)
}

/// The set stored after inserting `keys`, first to last, into an empty trie.
pub open spec fn inserted(keys: Seq<Seq<bool>>) -> Set<Seq<bool>>
    decreases keys.len(),
{
    if keys.len() == 0 {
        Set::empty()
    } else {
        inserted(keys.drop_last()).insert(keys.last())
    }
}

/// A stored key is reported.
pub proof fn lemma_stored_is_reported(s: Set<Seq<bool>>, k: Seq<bool>)
    requires
        s.contains(k),
    ensures
        reports(s, k),
{
    assert(leads(s, k, k));
}

/// A reported string is the beginning of some stored key; put the other
/// way, a string that no stored key begins with is not reported.
pub proof fn lemma_reported_begins_stored(s: Set<Seq<bool>>, k: Seq<bool>)
    requires
        reports(s, k),
    ensures
        exists|m: Seq<bool>| s.contains(m) && k.is_prefix_of(m),
{
}

/// No false answers among unrelated strings: a string that is neither
/// stored nor the beginning of a stored key is not reported.
pub proof fn lemma_unrelated_is_not_reported(s: Set<Seq<bool>>, k: Seq<bool>)
    requires
        forall|m: Seq<bool>| s.contains(m) ==> !k.is_prefix_of(m),
    ensures
        !reports(s, k),
{
}

/// Where a string is not the beginning of any longer stored key, the answer
/// is plain membership.
pub proof fn lemma_exact_unless_beginning(s: Set<Seq<bool>>, k: Seq<bool>)
    requires
        forall|m: Seq<bool>| s.contains(m) && k.is_prefix_of(m) ==> m == k,
    ensures
        reports(s, k) == s.contains(k),
{
    if s.contains(k) {
        lemma_stored_is_reported(s, k);
    }
    if reports(s, k) {
        let m = choose|m: Seq<bool>| leads(s, k, m);
        assert(s.contains(m) && k.is_prefix_of(m));
    }
}

/// Among keys of one length the answer is plain membership.
pub proof fn lemma_exact_for_one_length(s: Set<Seq<bool>>, k: Seq<bool>)
    requires
        forall|m: Seq<bool>| s.contains(m) ==> m.len() == k.len(),
    ensures
        reports(s, k) == s.contains(k),
{
    assert forall|m: Seq<bool>| s.contains(m) && k.is_prefix_of(m) implies m == k by {
        assert(m =~= m.subrange(0, k.len() as int));
    }
    lemma_exact_unless_beginning(s, k);
}

/// The stored set after a run of insertions holds exactly the keys of the
/// run.
pub proof fn lemma_inserted_members(keys: Seq<Seq<bool>>, k: Seq<bool>)
    ensures
        inserted(keys).contains(k) <==> keys.contains(k),
    decreases keys.len(),
{
    if keys.len() > 0 {
        lemma_inserted_members(keys.drop_last(), k);
        if keys.contains(k) {
            let i = choose|i: int| 0 <= i < keys.len() && keys[i] == k;
            if i < keys.len() - 1 {
                assert(keys.drop_last()[i] == k);
            }
        }
    }
}

/// Round trip: after any run of insertions into an empty trie, each key of
/// the run is reported.
pub proof fn lemma_round_trip(keys: Seq<Seq<bool>>, i: int)
    requires
        0 <= i < keys.len(),
    ensures
        reports(inserted(keys), keys[i]),
{
    lemma_inserted_members(keys, keys[i]);
    lemma_stored_is_reported(inserted(keys), keys[i]);
}

/// Idempotence: inserting a key a second time changes neither the stored
/// set nor the answer for any string.
pub proof fn lemma_insert_again(s: Set<Seq<bool>>, k: Seq<bool>, q: Seq<bool>)
    ensures
        s.insert(k).insert(k) == s.insert(k),
        reports(s.insert(k).insert(k), q) == reports(s.insert(k), q),
{
    assert(s.insert(k).insert(k) =~= s.insert(k));
}

/// Prefix independence: a key and a longer key that begins with it are
/// both reported once both are inserted, in either order.
pub proof fn lemma_prefix_independent(s: Set<Seq<bool>>, k: Seq<bool>, more: Seq<bool>)
    ensures
        reports(s.insert(k).insert(k + more), k),
        reports(s.insert(k).insert(k + more), k + more),
        reports(s.insert(k + more).insert(k), k),
        reports(s.insert(k + more).insert(k), k + more),
{
    lemma_stored_is_reported(s.insert(k).insert(k + more), k);
    lemma_stored_is_reported(s.insert(k).insert(k + more), k + more);
    lemma_stored_is_reported(s.insert(k + more).insert(k), k);
    lemma_stored_is_reported(s.insert(k + more).insert(k), k + more);
}

/// Order independence: two runs of insertions that hold the same keys, in
/// whatever order and however often, leave the same stored set and so the
/// same answer for every string.
pub proof fn lemma_order_independent(a: Seq<Seq<bool>>, b: Seq<Seq<bool>>, q: Seq<bool>)
    requires
        forall|k: Seq<bool>| a.contains(k) <==> b.contains(k),
    ensures
        inserted(a) == inserted(b),
        reports(inserted(a), q) == reports(inserted(b), q),
{
    assert forall|k: Seq<bool>| inserted(a).contains(k) <==> inserted(b).contains(k) by {
        lemma_inserted_members(a, k);
        lemma_inserted_members(b, k);
    }
    assert(inserted(a) =~= inserted(b));
}

/// Two insertions commute.
pub proof fn lemma_insert_commutes(s: Set<Seq<bool>>, j: Seq<bool>, k: Seq<bool>, q: Seq<bool>)
    ensures
        s.insert(j).insert(k) == s.insert(k).insert(j),
        reports(s.insert(j).insert(k), q) == reports(s.insert(k).insert(j), q),
{
    assert(s.insert(j).insert(k) =~= s.insert(k).insert(j));
}

} // verus!
