//! A compressed binary trie that walks its nodes by recursion.

use crate::collections::bit_key::key_bit;
use crate::collections::bit_key::key_len;
use crate::collections::bit_key::key_tail;
use crate::collections::bit_key::lemma_common_prefix_len_props;
use crate::collections::bit_key::Key;
use crate::collections::lookup::reports;
use crate::collections::patricia_node::adds;
use crate::collections::patricia_node::lemma_add_below;
use crate::collections::patricia_node::lemma_leaf_stores;
use crate::collections::patricia_node::lemma_prefix_by_index;
use crate::collections::patricia_node::lemma_reports_at_gap;
use crate::collections::patricia_node::lemma_reports_at_stop;
use crate::collections::patricia_node::lemma_reports_descend;
use crate::collections::patricia_node::Node;
use std::mem::swap;
use vstd::prelude::*;

verus! {

/// A set of bit strings of arbitrary lengths, kept as a compressed binary
/// trie.  The empty trie has no root.
pub struct PatriciaTree {
    root: Option<Box<Node>>,
}

impl View for PatriciaTree {
    type V = Set<Seq<bool>>;

    /// The set of stored keys.
    closed spec fn view(&self) -> Set<Seq<bool>> {
        match self.root {
            Some(r) => r.keys(),
            None => Set::empty(),
        }
    }
}

impl PatriciaTree {
    #[verifier::type_invariant]
    spec fn well_formed(self) -> bool {
        self.root matches Some(r) ==> r.wf()
    }

    /// The empty trie.
    pub fn new() -> (tree: Self)
        ensures
            tree@ == Set::<Seq<bool>>::empty(),
    {
        PatriciaTree { root: None }
    }

    /// Adds `key` to the stored set.  Every other key keeps its membership.
    pub fn insert(&mut self, key: &Key)
        ensures
            final(self)@ == old(self)@.insert(key@),
    {
        proof {
            use_type_invariant(&*self);
        }
        assert(key@.skip(0) =~= key@);
        let mut root = None;
        swap(&mut root, &mut self.root);
        match root {
            None => {
                let leaf = Node::new(key_tail(key, 0), true);
                proof {
                    assert forall|k: Seq<bool>| leaf.stores(k) <==> k == key@ by {
                        lemma_leaf_stores(leaf, k);
                    }
                }
                self.root = Some(Box::new(leaf));
            },
            Some(mut root) => {
                Self::find_and_insert(&mut *root, key, 0);
                self.root = Some(root);
            },
        }
    }

    /// Adds to the subtree at `node` the part of `key` that starts at
    /// position `from`.
    fn find_and_insert(node: &mut Node, key: &Key, from: usize)
        requires
            old(node).wf(),
            from <= key@.len(),
        ensures
            adds(*old(node), *final(node), key@.skip(from as int)),
        decreases *old(node),
    {
        let ghost rest = key@.skip(from as int);
        let ghost label = node.label@;
        let i = node.label.find_number_of_matching_bits(key, from);
        proof {
            lemma_common_prefix_len_props(label, rest);
            lemma_prefix_by_index(label, rest);
            lemma_prefix_by_index(rest, label);
        }
        if i == key_len(key) - from {
            if i == node.label.len() {
                node.end = true;
                proof {
                    assert forall|k: Seq<bool>| node.stores(k) <==> old(node).stores(k) || k
                        == rest by {
                        lemma_leaf_stores(Node { left: None, right: None, ..*node }, k);
                    }
                }
            } else {
                node.split(i);
            }
            return ;
        }
        if i == node.label.len() {
            assert(rest.skip(i as int) =~= key@.skip(from + i));
            if key_bit(key, from + i) {
                if node.right.is_some() {
                    Self::find_and_insert(node.right.as_mut().unwrap(), key, from + i);
                    proof {
                        lemma_add_below(*old(node), *node, rest);
                    }
                } else {
                    node.attach(key_tail(key, from + i));
                    proof {
                        assert(label + rest.skip(i as int) =~= rest);
                    }
                }
            } else {
                if node.left.is_some() {
                    Self::find_and_insert(node.left.as_mut().unwrap(), key, from + i);
                    proof {
                        lemma_add_below(*old(node), *node, rest);
                    }
                } else {
                    node.attach(key_tail(key, from + i));
                    proof {
                        assert(label + rest.skip(i as int) =~= rest);
                    }
                }
            }
        } else {
            node.fork(i, key_tail(key, from + i));
            proof {
                assert(rest.skip(i as int) =~= key@.skip(from + i));
                assert(label.take(i as int) + rest.skip(i as int) =~= rest);
            }
        }
    }

    /// Looks `key` up.  The walk follows the key down from the root and
    /// answers with the flag of the node in whose edge the key runs out; it
    /// answers `false` when the key leaves the trie first.  So a stored
    /// key is always found, and a string that no stored key begins with
    /// never is.  A string that runs out inside an edge is answered for
    /// the node at the end of that edge: it is found exactly when that
    /// node is a stored key.
    pub fn search(&self, key: &Key) -> (found: bool)
        ensures
            found == reports(self@, key@),
    {
        proof {
            use_type_invariant(self);
        }
        assert(key@.skip(0) =~= key@);
        match &self.root {
            None => {
                false
            },
            Some(root) => Self::search_internal(root, key, 0),
        }
    }

    /// Looks up, in the subtree at `node`, the part of `key` that starts at
    /// position `from`.
    fn search_internal(node: &Node, key: &Key, from: usize) -> (found: bool)
        requires
            node.wf(),
            from <= key@.len(),
        ensures
            found == reports(node.keys(), key@.skip(from as int)),
        decreases node,
    {
        let ghost rest = key@.skip(from as int);
        let ghost label = node.label@;
        let i = node.label.find_number_of_matching_bits(key, from);
        proof {
            lemma_common_prefix_len_props(label, rest);
        }
        if i == key_len(key) - from {
            proof {
                lemma_reports_at_stop(*node, rest);
            }
            return node.end;
        }
        if i < node.label.len() {
            return false;
        }
        proof {
            assert(rest.skip(i as int) =~= key@.skip(from + i));
        }
        let next = if key_bit(key, from + i) {
            &node.right
        } else {
            &node.left
        };
        match next {
            None => {
                proof {
                    lemma_reports_at_gap(*node, rest);
                }
                false
            },
            Some(child) => {
                proof {
                    lemma_reports_descend(*node, rest);
                }
                Self::search_internal(child, key, from + i)
            },
        }
    }
}

} // verus!
