//! The node of a compressed binary trie, its meaning as a set of bit
//! strings, and the facts about that meaning on which both tries rely.

use crate::collections::bit_key::key_bit;
use crate::collections::bit_key::key_tail;
use crate::collections::bit_key::key_truncate;
use crate::collections::bit_key::Key;
use crate::collections::lookup::leads;
use crate::collections::lookup::reports;
use std::mem::swap;
use vstd::prelude::*;

verus! {

/// One node of the trie.  `label` is the edge from the parent to this node,
/// `end` tells whether the path that ends here is a stored key, and the two
/// children continue the path with a 0 bit (`left`) or a 1 bit (`right`).
pub(crate) struct Node {
    pub(crate) label: Key,
    pub(crate) end: bool,
    pub(crate) left: Option<Box<Node>>,
    pub(crate) right: Option<Box<Node>>,
}

impl Node {
    /// The subtree below the parent edge holds `k`: the labels along some
    /// path from this node down to a node flagged `end` spell out `k`.
    pub(crate) open spec fn stores(self, k: Seq<bool>) -> bool
        decreases self,
    {
        let n = self.label@.len() as int;
        &&& self.label@.is_prefix_of(k)
        &&& {
            ||| (self.end && k.len() == n)
            ||| (self.left matches Some(c) && c.stores(k.skip(n)))
            ||| (self.right matches Some(c) && c.stores(k.skip(n)))
        }
    }

    /// All bit strings held by the subtree.
    pub(crate) open spec fn keys(self) -> Set<Seq<bool>> {
        Set::new(|k: Seq<bool>| self.stores(k))
    }

    /// Shape invariant: a child hangs on the side named by the first bit of
    /// its (non-empty) label, and a node that is not itself a key branches
    /// both ways.
    pub(crate) open spec fn wf(self) -> bool
        decreases self,
    {
        &&& !self.end ==> self.left is Some && self.right is Some
        &&& self.left matches Some(c) ==> c.label@.len() > 0 && !c.label@[0] && c.wf()
        &&& self.right matches Some(c) ==> c.label@.len() > 0 && c.label@[0] && c.wf()
    }

    /// One particular key of the subtree: keep left until a flagged node.
    pub(crate) open spec fn first_key(self) -> Seq<bool>
        decreases self,
    {
        if self.end {
            self.label@
        } else {
            match self.left {
                Some(c) => self.label@ + c.first_key(),
                None => self.label@,
            }
        }
    }

    /// The child that continues the path with the given bit.
    pub(crate) open spec fn child(self, bit: bool) -> Option<Box<Node>> {
        if bit {
            self.right
        } else {
            self.left
        }
    }
}

/// Being a prefix, position by position.
pub(crate) proof fn lemma_prefix_by_index(a: Seq<bool>, b: Seq<bool>)
    ensures
        a.is_prefix_of(b) <==> a.len() <= b.len() && forall|i: int|
            0 <= i < a.len() ==> a[i] == b[i],
{
}

/// A sequence is its prefix followed by the rest.
pub(crate) proof fn lemma_prefix_split(p: Seq<bool>, k: Seq<bool>)
    requires
        p.is_prefix_of(k),
    ensures
        k == p + k.skip(p.len() as int),
        (p + k.skip(p.len() as int)).skip(p.len() as int) == k.skip(p.len() as int),
{
}

/// Putting `p` in front: `p` starts the result and the rest is what was
/// appended.
pub(crate) proof fn lemma_concat_parts(p: Seq<bool>, x: Seq<bool>)
    ensures
        p.is_prefix_of(p + x),
        (p + x).skip(p.len() as int) == x,
{
}

/// Every stored key of a child begins with the bit of the child's side.
pub(crate) proof fn lemma_child_key_head(node: Node, bit: bool, x: Seq<bool>)
    requires
        node.wf(),
        node.child(bit) matches Some(c) && c.stores(x),
    ensures
        x.len() > 0,
        x[0] == bit,
{
}

/// A key is stored by a node exactly when the node's label starts it and
/// the rest is empty at a flagged node or stored by the child on the side
/// of the rest's first bit.
pub(crate) proof fn lemma_stores_by_side(node: Node, k: Seq<bool>)
    requires
        node.wf(),
    ensures
        node.stores(k) <==> node.label@.is_prefix_of(k) && if k.len() == node.label@.len() {
            node.end
        } else {
            node.child(k[node.label@.len() as int]) matches Some(c) && c.stores(
                k.skip(node.label@.len() as int),
            )
        },
{
    let n = node.label@.len() as int;
    if node.label@.is_prefix_of(k) {
        let rest = k.skip(n);
        if node.left matches Some(c) && c.stores(rest) {
            lemma_child_key_head(node, false, rest);
        }
        if node.right matches Some(c) && c.stores(rest) {
            lemma_child_key_head(node, true, rest);
        }
    }
}

/// A well-formed subtree is never empty.
pub(crate) proof fn lemma_first_key_stored(node: Node)
    requires
        node.wf(),
    ensures
        node.stores(node.first_key()),
        node.label@.is_prefix_of(node.first_key()),
        !node.end ==> node.first_key().len() > node.label@.len() && !node.first_key()[node.label@.len() as int],
    decreases node,
{
    let n = node.label@.len() as int;
    if !node.end {
        let c = node.left.unwrap();
        lemma_first_key_stored(*c);
        let k = node.label@ + c.first_key();
        assert(k.skip(n) =~= c.first_key());
    }
}

/// The lookup runs out inside this node's edge (or exactly at its end): the
/// answer is the node's flag.
pub(crate) proof fn lemma_reports_at_stop(node: Node, k: Seq<bool>)
    requires
        node.wf(),
        k.is_prefix_of(node.label@),
    ensures
        reports(node.keys(), k) == node.end,
{
    let s = node.keys();
    if node.end {
        let m = node.label@;
        assert(leads(s, k, m));
    } else if reports(s, k) {
        let m = choose|m: Seq<bool>| leads(s, k, m);
        let l = *node.left.unwrap();
        let r = *node.right.unwrap();
        lemma_first_key_stored(l);
        lemma_first_key_stored(r);
        let a = node.label@ + l.first_key();
        let b = node.label@ + r.first_key();
        lemma_concat_parts(node.label@, l.first_key());
        lemma_concat_parts(node.label@, r.first_key());
        assert(s.contains(a) && s.contains(b));
        lemma_stores_by_side(node, m);
    }
}

/// The label is used up, the key goes on, and there is no child on the side
/// of its next bit: nothing stored below begins with the key.
pub(crate) proof fn lemma_reports_at_gap(node: Node, k: Seq<bool>)
    requires
        node.wf(),
        node.label@.is_prefix_of(k),
        k.len() > node.label@.len(),
        node.child(k[node.label@.len() as int]) is None,
    ensures
        !reports(node.keys(), k),
{
    let s = node.keys();
    if reports(s, k) {
        let m = choose|m: Seq<bool>| leads(s, k, m);
        lemma_stores_by_side(node, m);
    }
}

/// The label is used up, the key goes on, and a child continues on the side
/// of its next bit: the answer is the child's answer for the rest of the key.
pub(crate) proof fn lemma_reports_descend(node: Node, k: Seq<bool>)
    requires
        node.wf(),
        node.label@.is_prefix_of(k),
        k.len() > node.label@.len(),
        node.child(k[node.label@.len() as int]) is Some,
    ensures
        reports(node.keys(), k) == reports(
            node.child(k[node.label@.len() as int]).unwrap().keys(),
            k.skip(node.label@.len() as int),
        ),
{
    let s = node.keys();
    let p = node.label@;
    let n = p.len() as int;
    let c = *node.child(k[n]).unwrap();
    let cs = c.keys();
    let k1 = k.skip(n);
    lemma_prefix_split(p, k);
    if reports(s, k) {
        let m = choose|m: Seq<bool>| leads(s, k, m);
        let m1 = m.skip(n);
        lemma_stores_by_side(node, m);
        assert forall|t1: Seq<bool>| #[trigger] cs.contains(t1) && k1.is_prefix_of(t1) implies m1.is_prefix_of(
            t1,
        ) by {
            let t = p + t1;
            lemma_concat_parts(p, t1);
            lemma_stores_by_side(node, t);
            assert(s.contains(t));
        }
        assert(leads(cs, k1, m1));
    }
    if reports(cs, k1) {
        let m1 = choose|m1: Seq<bool>| leads(cs, k1, m1);
        let m = p + m1;
        lemma_concat_parts(p, m1);
        assert forall|t: Seq<bool>| #[trigger] s.contains(t) && k.is_prefix_of(t) implies m.is_prefix_of(
            t,
        ) by {
            lemma_stores_by_side(node, t);
            assert(cs.contains(t.skip(n)));
        }
        assert(leads(s, k, m));
    }
}

impl Node {
    /// A node with the given edge label and flag and no children.
    pub(crate) fn new(label: Key, end: bool) -> (node: Node)
        ensures
            node.label@ == label@,
            node.end == end,
            node.left is None,
            node.right is None,
    {
        Node { label, end, left: None, right: None }
    }

    /// Cuts the edge after its first `at` bits.  The lower part of the edge
    /// goes to a new child that takes over this node's flag and children;
    /// this node keeps the upper part and becomes a stored key.
    pub(crate) fn split(&mut self, at: usize)
        requires
            old(self).wf(),
            at < old(self).label@.len(),
        ensures
            final(self).wf(),
            final(self).label@ == old(self).label@.take(at as int),
            forall|k: Seq<bool>|
                final(self).stores(k) <==> old(self).stores(k) || k == old(self).label@.take(
                    at as int,
                ),
    {
        let bit = key_bit(&self.label, at);
        let mut lower = Node::new(key_tail(&self.label, at), self.end);
        swap(&mut lower.left, &mut self.left);
        swap(&mut lower.right, &mut self.right);
        if bit {
            self.right = Some(Box::new(lower));
        } else {
            self.left = Some(Box::new(lower));
        }
        key_truncate(&mut self.label, at);
        self.end = true;
        proof {
            lemma_cut_edge(*old(self), *self, at as int, None);
        }
    }

    /// Cuts the edge after its first `at` bits and hangs a new leaf with the
    /// label `leaf` beside the lower part.  This node keeps the upper part
    /// and becomes a pure branching point.
    pub(crate) fn fork(&mut self, at: usize, leaf: Key)
        requires
            old(self).wf(),
            at < old(self).label@.len(),
            leaf@.len() > 0,
            leaf@[0] != old(self).label@[at as int],
        ensures
            final(self).wf(),
            final(self).label@ == old(self).label@.take(at as int),
            forall|k: Seq<bool>|
                final(self).stores(k) <==> old(self).stores(k) || k == old(self).label@.take(
                    at as int,
                ) + leaf@,
    {
        let bit = key_bit(&self.label, at);
        let mut lower = Node::new(key_tail(&self.label, at), self.end);
        swap(&mut lower.left, &mut self.left);
        swap(&mut lower.right, &mut self.right);
        let fresh = Node::new(leaf, true);
        if bit {
            self.right = Some(Box::new(lower));
            self.left = Some(Box::new(fresh));
        } else {
            self.left = Some(Box::new(lower));
            self.right = Some(Box::new(fresh));
        }
        key_truncate(&mut self.label, at);
        self.end = false;
        proof {
            lemma_cut_edge(*old(self), *self, at as int, Some(leaf@));
        }
    }

    /// Hangs a new leaf with the label `leaf` on the free side named by the
    /// label's first bit.
    pub(crate) fn attach(&mut self, leaf: Key)
        requires
            old(self).wf(),
            leaf@.len() > 0,
            old(self).child(leaf@[0]) is None,
        ensures
            final(self).wf(),
            final(self).label@ == old(self).label@,
            forall|k: Seq<bool>|
                final(self).stores(k) <==> old(self).stores(k) || k == old(self).label@ + leaf@,
    {
        let bit = key_bit(&leaf, 0);
        let fresh = Node::new(leaf, true);
        if bit {
            self.right = Some(Box::new(fresh));
        } else {
            self.left = Some(Box::new(fresh));
        }
        proof {
            let p = self.label@;
            let n = p.len() as int;
            assert(fresh.wf());
            assert forall|k: Seq<bool>| self.stores(k) <==> old(self).stores(k) || k == p
                + leaf@ by {
                if p.is_prefix_of(k) && k.len() > n {
                    lemma_prefix_split(p, k);
                    lemma_leaf_stores(fresh, k.skip(n));
                }
            }
        }
    }
}

/// A leaf stores its label and nothing else.
pub(crate) proof fn lemma_leaf_stores(leaf: Node, x: Seq<bool>)
    requires
        leaf.end,
        leaf.left is None,
        leaf.right is None,
    ensures
        leaf.stores(x) <==> x == leaf.label@,
{
    if x.len() == leaf.label@.len() && leaf.label@.is_prefix_of(x) {
        assert(x =~= leaf.label@);
    }
}

/// Effect of cutting an edge after `at` bits.  `after` keeps the upper part
/// of the label; the lower part hangs below it with the flag and children
/// of `before`.  With no leaf beside it, `after` is flagged and gains its
/// own label as a key; with a leaf beside it, `after` is not flagged and
/// gains the upper part followed by the leaf's label.
pub(crate) proof fn lemma_cut_edge(before: Node, after: Node, at: int, leaf: Option<Seq<bool>>)
    requires
        before.wf(),
        0 <= at < before.label@.len(),
        after.label@ == before.label@.take(at),
        after.child(before.label@[at]) matches Some(lower) && {
            &&& lower.label@ == before.label@.skip(at)
            &&& lower.end == before.end
            &&& lower.left == before.left
            &&& lower.right == before.right
        },
        match leaf {
            None => after.end && after.child(!before.label@[at]) is None,
            Some(x) => {
                &&& !after.end
                &&& x.len() > 0
                &&& x[0] != before.label@[at]
                &&& after.child(x[0]) matches Some(fresh) && {
                    &&& fresh.label@ == x
                    &&& fresh.end
                    &&& fresh.left is None
                    &&& fresh.right is None
                }
            },
        },
    ensures
        after.wf(),
        forall|k: Seq<bool>|
            after.stores(k) <==> before.stores(k) || k == before.label@.take(at) + match leaf {
                None => Seq::<bool>::empty(),
                Some(x) => x,
            },
{
    let p = before.label@;
    let up = p.take(at);
    let low = p.skip(at);
    let bit = p[at];
    let lower = *after.child(bit).unwrap();
    let extra = match leaf {
        None => Seq::<bool>::empty(),
        Some(x) => x,
    };
    assert(lower.wf());
    if leaf is Some {
        assert(after.child(extra[0]).unwrap().wf());
    }
    assert forall|k: Seq<bool>| after.stores(k) <==> before.stores(k) || k == up + extra by {
        lemma_stores_by_side(after, k);
        if up.is_prefix_of(k) {
            let k1 = k.skip(at);
            lemma_prefix_split(up, k);
            lemma_prefix_by_index(low, k1);
            if k.len() > at {
                if k[at] == bit {
                    // below the lower part of the old edge
                    if low.is_prefix_of(k1) {
                        assert(k1.skip(low.len() as int) =~= k.skip(p.len() as int));
                    }
                } else {
                    if leaf is Some {
                        let fresh = *after.child(extra[0]).unwrap();
                        lemma_leaf_stores(fresh, k1);
                    }
                }
            }
        }
    }
}

/// `after` is what a well-formed `before` becomes when `k` is added to it:
/// still well-formed, storing `k` besides what it stored, and, where the
/// edge label began with the first bit of `k`, still beginning with it.
pub(crate) open spec fn adds(before: Node, after: Node, k: Seq<bool>) -> bool {
    &&& after.wf()
    &&& forall|t: Seq<bool>| after.stores(t) <==> before.stores(t) || t == k
    &&& before.label@.len() > 0 && k.len() > 0 && before.label@[0] == k[0] ==> after.label@.len()
        > 0 && after.label@[0] == k[0]
}

/// `after` is `before` with the child on the side of the next bit of `k`
/// replaced by what that child becomes when the rest of `k` is added to it.
pub(crate) open spec fn grows_below(before: Node, after: Node, k: Seq<bool>) -> bool {
    let n = before.label@.len() as int;
    &&& after.label@ == before.label@
    &&& after.end == before.end
    &&& after.child(!k[n]) == before.child(!k[n])
    &&& before.child(k[n]) matches Some(c) && after.child(k[n]) matches Some(d) && adds(
        *c,
        *d,
        k.skip(n),
    )
}

/// Adding the rest of a key below the child on the side of its next bit
/// adds the key to the node.
pub(crate) proof fn lemma_add_below(before: Node, after: Node, k: Seq<bool>)
    requires
        before.wf(),
        before.label@.is_prefix_of(k),
        k.len() > before.label@.len(),
        grows_below(before, after, k),
    ensures
        adds(before, after, k),
{
    let p = before.label@;
    let n = p.len() as int;
    assert forall|t: Seq<bool>| after.stores(t) <==> before.stores(t) || t == k by {
        lemma_stores_by_side(before, t);
        lemma_stores_by_side(after, t);
        if p.is_prefix_of(t) && t.len() > n {
            lemma_prefix_split(p, t);
            lemma_prefix_split(p, k);
        }
    }
}

} // verus!
