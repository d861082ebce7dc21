//! Bit strings used as trie keys and edge labels.
//!
//! A [`Key`] owns a `bitvec` bit-vector (byte storage, most significant bit
//! first).  The verifier cannot look inside that vector, so everything the
//! rest of the crate knows about a key comes from the handful of trusted
//! functions in this file, each of which does nothing but hand one
//! operation on to `bitvec`.

use bitvec::order::Msb0;
use bitvec::vec::BitVec;
use vstd::prelude::*;

verus! {

/// An owned, ordered sequence of bits of arbitrary length.
#[verifier::external_body]
pub struct Key {
    bits: BitVec<u8, Msb0>,
}

/// The bits held by the vector inside a key, first bit first.
pub uninterp spec fn key_bits(k: Key) -> Seq<bool>;

impl View for Key {
    type V = Seq<bool>;

    open spec fn view(&self) -> Seq<bool> {
        key_bits(*self)
    }
}

/// Largest number of bits a key can hold: the bit-vector keeps its length
/// in a machine word of which the low three bits are used otherwise.
pub open spec fn max_key_bits() -> int {
    usize::MAX as int / 8
}

/// Trusted: `BitVec::new`.  The fresh vector holds no bits.
#[verifier::external_body]
fn key_empty() -> (k: Key)
    ensures
        key_bits(k) == Seq::<bool>::empty(),
{
    Key { bits: BitVec::new() }
}

/// Trusted: `BitVec::push`.  Appends one bit at the end.  The call panics
/// once the length limit is reached, so the limit is a precondition.
#[verifier::external_body]
fn key_push(k: &mut Key, bit: bool)
    requires
        key_bits(*old(k)).len() < max_key_bits(),
    ensures
        key_bits(*final(k)) == key_bits(*old(k)).push(bit),
{
    k.bits.push(bit);
}

/// Trusted: `BitVec::len`.  The number of bits held.
#[verifier::external_body]
pub(crate) fn key_len(k: &Key) -> (n: usize)
    ensures
        n == key_bits(*k).len(),
{
    k.bits.len()
}

/// Trusted: indexing a bit-vector by position.  Out-of-range positions
/// panic, so they are excluded.
#[verifier::external_body]
pub(crate) fn key_bit(k: &Key, i: usize) -> (bit: bool)
    requires
        i < key_bits(*k).len(),
    ensures
        bit == key_bits(*k)[i as int],
{
    k.bits[i]
}

/// Trusted: `BitSlice::split_at` followed by `BitSlice::to_bitvec` on the
/// right half.  The result is a fresh copy of the bits from `mid` onward.
/// `split_at` panics when `mid` is past the end.
#[verifier::external_body]
pub(crate) fn key_tail(k: &Key, mid: usize) -> (tail: Key)
    requires
        mid <= key_bits(*k).len(),
    ensures
        key_bits(tail) == key_bits(*k).skip(mid as int),
{
    Key { bits: k.bits.split_at(mid).1.to_bitvec() }
}

/// Trusted: `BitVec::truncate`.  Keeps the first `len` bits; a `len` at or
/// beyond the current length leaves the vector as it is.
#[verifier::external_body]
pub(crate) fn key_truncate(k: &mut Key, len: usize)
    ensures
        key_bits(*final(k)) == if len < key_bits(*old(k)).len() {
            key_bits(*old(k)).take(len as int)
        } else {
            key_bits(*old(k))
        },
{
    k.bits.truncate(len);
}

impl Key {
    /// The empty bit string.
    pub fn new() -> (k: Key)
        ensures
            k@ == Seq::<bool>::empty(),
    {
        key_empty()
    }

    /// Number of bits in the key.
    pub fn len(&self) -> (n: usize)
        ensures
            n == self@.len(),
    {
        key_len(self)
    }

    /// The bit at position `i`, or `None` when `i` is past the end.
    pub fn get(&self, i: usize) -> (bit: Option<bool>)
        ensures
            bit == if i < self@.len() {
                Some(self@[i as int])
            } else {
                None
            },
    {
        if i < key_len(self) {
            Some(key_bit(self, i))
        } else {
            None
        }
    }

    /// Builds a key holding exactly the given bits, in order.  Returns
    /// `None` when there are more bits than a key can hold.
    pub fn from_bools(bits: &[bool]) -> (k: Option<Key>)
        ensures
            k is Some <==> bits@.len() <= max_key_bits(),
            k matches Some(key) ==> key@ == bits@,
    {
        if bits.len() > usize::MAX / 8 {
            return None;
        }
        let mut key = key_empty();
        let mut i: usize = 0;
        while i < bits.len()
            invariant
                i <= bits@.len() <= max_key_bits(),
                key@ == bits@.take(i as int),
            decreases bits@.len() - i,
        {
            key_push(&mut key, bits[i]);
            i += 1;
        }
        Some(key)
    }

    /// The bits of the key as a vector of booleans.
    pub fn to_bools(&self) -> (bits: Vec<bool>)
        ensures
            bits@ == self@,
    {
        let n = key_len(self);
        let mut bits: Vec<bool> = Vec::new();
        let mut i: usize = 0;
        while i < n
            invariant
                i <= n == self@.len(),
                bits@ == self@.take(i as int),
            decreases n - i,
        {
            bits.push(key_bit(self, i));
            i += 1;
        }
        bits
    }

    /// Length of the longest common prefix of `self` and the part of `other`
    /// that starts at position `from`.
    pub fn find_number_of_matching_bits(&self, other: &Key, from: usize) -> (n: usize)
        requires
            from <= other@.len(),
        ensures
            n == common_prefix_len(self@, other@.skip(from as int)),
    {
        let a = key_len(self);
        let b = key_len(other) - from;
        let limit = if a < b { a } else { b };
        let mut i: usize = 0;
        while i < limit
            invariant
                i <= limit,
                limit <= self@.len(),
                limit <= other@.len() - from,
                from + limit <= usize::MAX,
                limit == self@.len() || limit == other@.len() - from,
                forall|j: int| 0 <= j < i ==> self@[j] == other@[from + j],
            decreases limit - i,
        {
            if key_bit(self, i) != key_bit(other, from + i) {
                proof {
                    lemma_common_prefix_len_is(self@, other@.skip(from as int), i as int);
                }
                return i;
            }
            i += 1;
        }
        proof {
            lemma_common_prefix_len_is(self@, other@.skip(from as int), i as int);
        }
        i
    }
}

/// Number of leading positions at which `a` and `b` hold the same bit.
pub open spec fn common_prefix_len(a: Seq<bool>, b: Seq<bool>) -> nat
    decreases a.len(),
{
    if a.len() == 0 || b.len() == 0 || a[0] != b[0] {
        0
    } else {
        1 + common_prefix_len(a.skip(1), b.skip(1))
    }
}

/// The common prefix length is the one position `n` up to which the two
/// sequences agree and at which they either differ or one of them ends.
pub proof fn lemma_common_prefix_len_is(a: Seq<bool>, b: Seq<bool>, n: int)
    requires
        0 <= n <= a.len(),
        n <= b.len(),
        forall|j: int| 0 <= j < n ==> a[j] == b[j],
        n == a.len() || n == b.len() || a[n] != b[n],
    ensures
        common_prefix_len(a, b) == n,
    decreases n,
{
    if n > 0 {
        lemma_common_prefix_len_is(a.skip(1), b.skip(1), n - 1);
    }
}

/// What the common prefix length says about the two sequences.
pub proof fn lemma_common_prefix_len_props(a: Seq<bool>, b: Seq<bool>)
    ensures
        common_prefix_len(a, b) <= a.len(),
        common_prefix_len(a, b) <= b.len(),
        a.take(common_prefix_len(a, b) as int) == b.take(common_prefix_len(a, b) as int),
        common_prefix_len(a, b) < a.len() && common_prefix_len(a, b) < b.len() ==> a[common_prefix_len(
            a,
            b,
        ) as int] != b[common_prefix_len(a, b) as int],
    decreases a.len(),
{
    let n = common_prefix_len(a, b);
    if a.len() > 0 && b.len() > 0 && a[0] == b[0] {
        lemma_common_prefix_len_props(a.skip(1), b.skip(1));
        let m = common_prefix_len(a.skip(1), b.skip(1));
        assert forall|j: int| 0 <= j < n implies a[j] == b[j] by {
            if j > 0 {
                assert(a.skip(1).take(m as int)[j - 1] == a[j]);
            }
        }
    }
}

} // verus!
