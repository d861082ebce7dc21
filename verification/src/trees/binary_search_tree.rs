//! An unbalanced binary search tree that keeps every value it is given,
//! duplicates included.

use crate::collections::list::List;
use crate::collections::list::QueueStackMix;
use crate::order::equates;
use crate::order::less;
use crate::order::ranks;
use crate::order::sorted;
use crate::sort_algorithms::sort::rearranged;
use std::mem::swap;
use vstd::prelude::*;
use vstd::std_specs::cmp::PartialEqSpec;

verus! {

struct BSTNode<T: PartialOrd> {
    value: T,
    smaller: Option<Box<BSTNode<T>>>,
    larger: Option<Box<BSTNode<T>>>,
}

/// The values of a subtree, left to right.
spec fn in_order<T: PartialOrd>(link: Option<Box<BSTNode<T>>>) -> Seq<T>
    decreases link,
{
    match link {
        None => Seq::empty(),
        Some(node) => in_order(node.smaller) + seq![node.value] + in_order(node.larger),
    }
}

/// At every node, what hangs on the smaller side comes before the node's
/// value and what hangs on the larger side does not.
spec fn ordered<T: PartialOrd>(link: Option<Box<BSTNode<T>>>) -> bool
    decreases link,
{
    match link {
        None => true,
        Some(node) => {
            &&& forall|i: int|
                0 <= i < in_order(node.smaller).len() ==> less(
                    #[trigger] in_order(node.smaller)[i],
                    node.value,
                )
            &&& forall|i: int|
                0 <= i < in_order(node.larger).len() ==> !less(
                    #[trigger] in_order(node.larger)[i],
                    node.value,
                )
            &&& ordered(node.smaller)
            &&& ordered(node.larger)
        },
    }
}

/// Some value of `s` is equal to `value`.
pub open spec fn holds_equal<T: PartialOrd>(s: Seq<T>, value: T) -> bool {
    exists|i: int| 0 <= i < s.len() && value.eq_spec(&#[trigger] s[i])
}

/// `place` is where `value` belongs among the values of `s`: behind every
/// value that it does not come before, and in front of every value that it
/// comes before.
pub open spec fn belongs<T: PartialOrd>(s: Seq<T>, value: T, place: int) -> bool {
    &&& 0 <= place <= s.len()
    &&& forall|i: int| 0 <= i < place ==> !less(value, #[trigger] s[i])
    &&& forall|i: int| place <= i < s.len() ==> less(value, #[trigger] s[i])
}

/// `after` is `before` with `value` put in at some place, which is the
/// place where it belongs if the comparison operators rank the values.
pub open spec fn gained<T: PartialOrd>(before: Seq<T>, after: Seq<T>, value: T) -> bool {
    exists|place: int|
        {
            &&& 0 <= place <= before.len()
            &&& after == #[trigger] before.insert(place, value)
            &&& ranks::<T>() ==> belongs(before, value, place)
        }
}

/// The values of an ordered subtree are in order from left to right.
proof fn lemma_ordered_is_sorted<T: PartialOrd>(link: Option<Box<BSTNode<T>>>)
    requires
        ranks::<T>(),
        ordered(link),
    ensures
        sorted(in_order(link)),
    decreases link,
{
    match link {
        None => {},
        Some(node) => {
            lemma_ordered_is_sorted(node.smaller);
            lemma_ordered_is_sorted(node.larger);
        },
    }
}

/// Number of nodes of a subtree.
spec fn size<T: PartialOrd>(link: Option<Box<BSTNode<T>>>) -> nat
    decreases link,
{
    match link {
        None => 0,
        Some(node) => 1 + size(node.smaller) + size(node.larger),
    }
}

/// Number of nodes of a row of subtrees.
spec fn forest_size<T: PartialOrd>(row: Seq<Option<Box<BSTNode<T>>>>) -> nat
    decreases row.len(),
{
    if row.len() == 0 {
        0
    } else {
        size(row[0]) + forest_size(row.drop_first())
    }
}

/// The values at the top of the subtrees of a row, left to right.
spec fn roots<T: PartialOrd>(row: Seq<Option<Box<BSTNode<T>>>>) -> Seq<T>
    decreases row.len(),
{
    if row.len() == 0 {
        Seq::empty()
    } else {
        (match row[0] {
            None => Seq::empty(),
            Some(node) => seq![node.value],
        }) + roots(row.drop_first())
    }
}

/// The subtrees that hang below the tops of a row, left to right.
spec fn children<T: PartialOrd>(row: Seq<Option<Box<BSTNode<T>>>>) -> Seq<Option<Box<BSTNode<T>>>>
    decreases row.len(),
{
    if row.len() == 0 {
        Seq::empty()
    } else {
        (match row[0] {
            None => Seq::empty(),
            Some(node) => seq![node.smaller, node.larger],
        }) + children(row.drop_first())
    }
}

/// The values of a row of subtrees level by level: the tops from left to
/// right, then in the same way what hangs below them.
spec fn level_order<T: PartialOrd>(row: Seq<Option<Box<BSTNode<T>>>>) -> Seq<T>
    decreases forest_size(row),
{
    if forest_size(row) == 0 {
        Seq::empty()
    } else {
        proof {
            lemma_one_level_down(row);
        }
        roots(row) + level_order(children(row))
    }
}

/// A row of one subtree.
proof fn lemma_row_of_one<T: PartialOrd>(link: Option<Box<BSTNode<T>>>)
    ensures
        forest_size(seq![link]) == size(link),
        forest_in_order(seq![link]) == in_order(link),
{
    let row = seq![link];
    let nothing = Seq::<Option<Box<BSTNode<T>>>>::empty();
    assert(row.drop_first() =~= nothing);
    assert(forest_size(nothing) == 0);
    assert(forest_in_order(nothing) =~= Seq::<T>::empty());
}

/// Going one level down leaves out exactly the tops.
proof fn lemma_one_level_down<T: PartialOrd>(row: Seq<Option<Box<BSTNode<T>>>>)
    ensures
        forest_size(children(row)) + roots(row).len() == forest_size(row),
        forest_size(row) > 0 ==> roots(row).len() > 0,
    decreases row.len(),
{
    if row.len() > 0 {
        let rest = row.drop_first();
        lemma_one_level_down(rest);
        match row[0] {
            None => {
            },
            Some(node) => {
                let below = seq![node.smaller, node.larger];
                lemma_forest_size_joined(below, children(rest));
                assert(below.drop_first() =~= seq![node.larger]);
                lemma_row_of_one(node.larger);
            },
        }
    }
}

/// Rows put side by side: sizes add up, tops and children follow one
/// another.
proof fn lemma_forest_size_joined<T: PartialOrd>(
    a: Seq<Option<Box<BSTNode<T>>>>,
    b: Seq<Option<Box<BSTNode<T>>>>,
)
    ensures
        forest_size(a + b) == forest_size(a) + forest_size(b),
        roots(a + b) == roots(a) + roots(b),
        children(a + b) == children(a) + children(b),
    decreases a.len(),
{
    if a.len() > 0 {
        lemma_forest_size_joined(a.drop_first(), b);
        assert((a + b).drop_first() =~= a.drop_first() + b);
    }
}

/// A subtree has as many nodes as values.
proof fn lemma_size_is_length<T: PartialOrd>(link: Option<Box<BSTNode<T>>>)
    ensures
        size(link) == in_order(link).len(),
    decreases link,
{
    match link {
        None => {},
        Some(node) => {
            lemma_size_is_length(node.smaller);
            lemma_size_is_length(node.larger);
        },
    }
}

/// The level order of a row is the tops followed by the level order of
/// what hangs below them.
proof fn lemma_level_order_unfolds<T: PartialOrd>(row: Seq<Option<Box<BSTNode<T>>>>)
    ensures
        level_order(row) == roots(row) + level_order(children(row)),
{
    lemma_one_level_down(row);
}

/// All values of a row of subtrees, each subtree from left to right.
spec fn forest_in_order<T: PartialOrd>(row: Seq<Option<Box<BSTNode<T>>>>) -> Seq<T>
    decreases row.len(),
{
    if row.len() == 0 {
        Seq::empty()
    } else {
        in_order(row[0]) + forest_in_order(row.drop_first())
    }
}

/// The values of a row are its tops and the values below them.
proof fn lemma_forest_values<T: PartialOrd>(row: Seq<Option<Box<BSTNode<T>>>>)
    ensures
        rearranged(forest_in_order(row), roots(row) + forest_in_order(children(row))),
    decreases row.len(),
{
    broadcast use vstd::seq_lib::lemma_multiset_commutative;

    if row.len() > 0 {
        let rest = row.drop_first();
        lemma_forest_values(rest);
        match row[0] {
            None => {
            },
            Some(node) => {
                let below = seq![node.smaller, node.larger];
                lemma_forest_joined_values(below, children(rest));
                assert(below.drop_first() =~= seq![node.larger]);
                lemma_row_of_one(node.larger);
                let l = in_order(node.smaller);
                let r = in_order(node.larger);
                let v = seq![node.value];
                let tail = forest_in_order(rest);
                assert(((l + v + r) + tail).to_multiset() =~= ((v + roots(rest)) + ((l + r)
                    + forest_in_order(children(rest)))).to_multiset());
            },
        }
    }
}

/// Rows put side by side: their values follow one another.
proof fn lemma_forest_joined_values<T: PartialOrd>(
    a: Seq<Option<Box<BSTNode<T>>>>,
    b: Seq<Option<Box<BSTNode<T>>>>,
)
    ensures
        forest_in_order(a + b) == forest_in_order(a) + forest_in_order(b),
    decreases a.len(),
{
    if a.len() > 0 {
        lemma_forest_joined_values(a.drop_first(), b);
        assert((a + b).drop_first() =~= a.drop_first() + b);
    }
}

/// Level order visits every value once.
proof fn lemma_level_order_values<T: PartialOrd>(row: Seq<Option<Box<BSTNode<T>>>>)
    ensures
        rearranged(level_order(row), forest_in_order(row)),
    decreases forest_size(row),
{
    broadcast use vstd::seq_lib::lemma_multiset_commutative;

    lemma_one_level_down(row);
    lemma_forest_values(row);
    if forest_size(row) > 0 {
        lemma_level_order_values(children(row));
    } else {
        lemma_empty_forest(row);
    }
}

/// A row without nodes has no values.
proof fn lemma_empty_forest<T: PartialOrd>(row: Seq<Option<Box<BSTNode<T>>>>)
    requires
        forest_size(row) == 0,
    ensures
        forest_in_order(row) == Seq::<T>::empty(),
        roots(row) == Seq::<T>::empty(),
        children(row) == Seq::<Option<Box<BSTNode<T>>>>::empty(),
    decreases row.len(),
{
    if row.len() > 0 {
        lemma_empty_forest(row.drop_first());
    }
}

/// The subtrees that a row of references points at.
spec fn pointed<T: PartialOrd>(queue: Seq<&Option<Box<BSTNode<T>>>>) -> Seq<Option<Box<BSTNode<T>>>> {
    Seq::new(queue.len(), |i: int| *queue[i])
}

/// A set of values kept in a binary search tree.
pub struct BinarySearchTree<T: PartialOrd> {
    root: Option<Box<BSTNode<T>>>,
}

impl<T: PartialOrd> View for BinarySearchTree<T> {
    type V = Seq<T>;

    /// The values of the tree as a walk from left to right meets them.
    closed spec fn view(&self) -> Seq<T> {
        in_order(self.root)
    }
}

impl<T: PartialOrd> BinarySearchTree<T> {
    #[verifier::type_invariant]
    spec fn well_formed(self) -> bool {
        ranks::<T>() ==> ordered(self.root)
    }

    /// The empty tree.
    pub fn new() -> (tree: Self)
        ensures
            tree@ == Seq::<T>::empty(),
    {
        BinarySearchTree { root: None }
    }

    /// Adds `value` to the tree.  The values already there keep their
    /// places relative to each other, and where the comparison operators
    /// rank the values, the walk from left to right stays in order.
    pub fn add(&mut self, value: T) -> (done: Result<(), ()>)
        ensures
            done is Ok,
            gained(old(self)@, final(self)@, value),
            ranks::<T>() ==> sorted(final(self)@),
    {
        proof {
            use_type_invariant(&*self);
        }
        let mut root = None;
        swap(&mut root, &mut self.root);
        let done = if root.is_none() {
            root = Self::new_node(value);
            assert(in_order(root) =~= Seq::<T>::empty().insert(0, value));
            Ok(())
        } else {
            Self::internal_add(root.as_mut().unwrap(), value)
        };
        proof {
            if ranks::<T>() {
                lemma_ordered_is_sorted(root);
            }
        }
        self.root = root;
        done
    }

    fn new_node(value: T) -> (link: Option<Box<BSTNode<T>>>)
        ensures
            in_order(link) == seq![value],
            ordered(link),
            link is Some,
    {
        let link = Some(Box::new(BSTNode { value, smaller: None, larger: None }));
        proof {
            let nothing: Option<Box<BSTNode<T>>> = None;
            assert(ordered(nothing));
        }
        link
    }

    fn internal_add(node: &mut BSTNode<T>, value: T) -> (done: Result<(), ()>)
        requires
            ranks::<T>() ==> ordered(Some(Box::new(*old(node)))),
        ensures
            done is Ok,
            gained(
                in_order(Some(Box::new(*old(node)))),
                in_order(Some(Box::new(*final(node)))),
                value,
            ),
            ranks::<T>() ==> ordered(Some(Box::new(*final(node)))),
        decreases *old(node),
    {
        let ghost left = in_order(node.smaller);
        let ghost right = in_order(node.larger);
        let ghost all = in_order(Some(Box::new(*node)));
        if value < node.value {
            if node.smaller.is_none() {
                node.smaller = Self::new_node(value);
                assert(in_order(node.smaller) =~= left.insert(0, value));
            } else {
                Self::internal_add(node.smaller.as_mut().unwrap(), value);
            }
            proof {
                let grown = in_order(node.smaller);
                let place = choose|place: int|
                    {
                        &&& 0 <= place <= left.len()
                        &&& grown == #[trigger] left.insert(place, value)
                        &&& ranks::<T>() ==> belongs(left, value, place)
                    };
                assert(grown + seq![node.value] + right =~= all.insert(place, value));
            }
            Ok(())
        } else {
            if node.larger.is_none() {
                node.larger = Self::new_node(value);
                assert(in_order(node.larger) =~= right.insert(0, value));
            } else {
                Self::internal_add(node.larger.as_mut().unwrap(), value);
            }
            proof {
                let grown = in_order(node.larger);
                let place = choose|place: int|
                    {
                        &&& 0 <= place <= right.len()
                        &&& grown == #[trigger] right.insert(place, value)
                        &&& ranks::<T>() ==> belongs(right, value, place)
                    };
                assert(left + seq![node.value] + grown =~= all.insert(
                    left.len() + 1 + place,
                    value,
                ));
                if ranks::<T>() {
                    assert(!less(value, node.value));
                }
            }
            Ok(())
        }
    }

    /// Looks for a value equal to `value`.  Where the comparison operators
    /// rank the values and agree with `==`, the answer is `Ok` exactly when
    /// the tree holds such a value.
    pub fn search(&self, value: T) -> (found: Result<(), ()>)
        ensures
            T::obeys_eq_spec() && found is Ok ==> holds_equal(self@, value),
            ranks::<T>() && equates::<T>() ==> (found is Ok <==> holds_equal(self@, value)),
    {
        proof {
            use_type_invariant(self);
        }
        if self.root.is_none() {
            return Err(());
        }
        Self::internal_search(self.root.as_ref().unwrap(), value)
    }

    fn internal_search(node: &Box<BSTNode<T>>, value: T) -> (found: Result<(), ()>)
        requires
            ranks::<T>() ==> ordered(Some(*node)),
        ensures
            T::obeys_eq_spec() && found is Ok ==> holds_equal(in_order(Some(*node)), value),
            ranks::<T>() && equates::<T>() ==> (found is Ok <==> holds_equal(
                in_order(Some(*node)),
                value,
            )),
        decreases node,
    {
        let ghost left = in_order(node.smaller);
        let ghost right = in_order(node.larger);
        let ghost all = in_order(Some(*node));
        let ghost n = left.len() as int;
        if value == node.value {
            proof {
                if T::obeys_eq_spec() {
                    assert(value.eq_spec(&all[n]));
                }
            }
            return Ok(());
        } else if value < node.value {
            if node.smaller.is_none() {
                return Err(());
            }
            let found = Self::internal_search(node.smaller.as_ref().unwrap(), value);
            proof {
                if T::obeys_eq_spec() && found is Ok {
                    let i = choose|i: int| 0 <= i < left.len() && value.eq_spec(&#[trigger] left[i]);
                    assert(value.eq_spec(&all[i]));
                }
            }
            return found;
        } else {
            proof {
                if ranks::<T>() && equates::<T>() {
                    assert(!less(value, node.value));
                }
            }
            if node.larger.is_none() {
                return Err(());
            }
            let found = Self::internal_search(node.larger.as_ref().unwrap(), value);
            proof {
                if T::obeys_eq_spec() && found is Ok {
                    let i = choose|i: int|
                        0 <= i < right.len() && value.eq_spec(&#[trigger] right[i]);
                    assert(value.eq_spec(&all[n + 1 + i]));
                }
            }
            return found;
        }
    }

    /// The values in the order in which a depth-first walk that visits the
    /// smaller side, then the node, then the larger side meets them.  The
    /// caller prints them, one to a line.
    pub fn dfs_print(&self) -> (lines: Vec<&T>)
        ensures
            shown(lines@) == self@,
    {
        let mut lines: Vec<&T> = Vec::new();
        Self::dfs(&self.root, &mut lines);
        lines
    }

    /// The values level by level: the root, then its two children from the
    /// smaller to the larger, then theirs, and so on.
    pub closed spec fn breadth_first(&self) -> Seq<T> {
        level_order(seq![self.root])
    }

    /// Level order visits every value of the tree once.
    pub proof fn lemma_breadth_first_values(&self)
        ensures
            rearranged(self.breadth_first(), self@),
    {
        let row = seq![self.root];
        lemma_level_order_values(row);
        lemma_row_of_one(self.root);
    }

    /// The values in the order in which a breadth-first walk meets them.
    /// The caller prints them, one to a line.  The walk keeps the links it
    /// has still to follow in a queue, whose length must fit a machine
    /// word.
    pub fn bfs_print(&self) -> (lines: Vec<&T>)
        requires
            2 * self@.len() < usize::MAX,
        ensures
            shown(lines@) == self.breadth_first(),
    {
        let mut lines: Vec<&T> = Vec::new();
        if self.root.is_none() {
            proof {
                lemma_row_of_one(self.root);
            }
            return lines;
        }
        let mut l = List::<&Option<Box<BSTNode<T>>>>::new();
        l.push_to_end(&self.root).unwrap();
        let ghost total = self@.len();
        let ghost mut level: nat = 1;
        proof {
            let row = seq![self.root];
            lemma_size_is_length(self.root);
            lemma_row_of_one(self.root);
            assert(pointed(l@) =~= row);
            assert(pointed(l@).take(1) =~= row);
        }
        loop
            invariant
                l.wf(),
                level <= l@.len(),
                total == self@.len(),
                2 * total < usize::MAX,
                lines@.len() + forest_size(pointed(l@)) == total,
                l@.len() <= 1 + 2 * lines@.len(),
                shown(lines@) + roots(pointed(l@).take(level as int)) + level_order(
                    pointed(l@).skip(level as int) + children(pointed(l@).take(level as int)),
                ) == self.breadth_first(),
            ensures
                shown(lines@) == self.breadth_first(),
            decreases forest_size(pointed(l@)), l@.len(),
        {
            let ghost queue = pointed(l@);
            proof {
                if level == 0 {
                    // the row is used up: what was put behind it is the next row
                    assert(queue.skip(0) =~= queue);
                    lemma_level_order_unfolds(queue);
                    level = queue.len();
                }
            }
            match l.pop_from_beginning() {
                None => {
                    break ;
                },
                Some(n) => {
                    let ghost row = queue.take(level as int);
                    let ghost behind = queue.skip(level as int);
                    let ghost rest = pointed(l@);
                    proof {
                        assert(rest =~= queue.drop_first());
                        assert(row.drop_first() =~= rest.take(level - 1));
                        assert(behind =~= rest.skip(level - 1));
                    }
                    if n.is_none() {
                        proof {
                            level = (level - 1) as nat;
                        }
                        continue ;
                    }
                    let node = n.as_ref().unwrap();
                    lines.push(&node.value);
                    l.push_to_end(&node.smaller).unwrap();
                    l.push_to_end(&node.larger).unwrap();
                    proof {
                        let below = seq![node.smaller, node.larger];
                        let now = pointed(l@);
                        assert(now =~= rest + below);
                        lemma_forest_size_joined(rest, below);
                        assert(below.drop_first() =~= seq![node.larger]);
                        lemma_row_of_one(node.larger);
                        level = (level - 1) as nat;
                        assert(now.take(level as int) =~= row.drop_first());
                        assert(now.skip(level as int) =~= behind + below);
                        assert((behind + below) + children(row.drop_first()) =~= behind
                            + children(row));
                    }
                },
            }
        }
        lines
    }

    fn dfs<'a>(node: &'a Option<Box<BSTNode<T>>>, lines: &mut Vec<&'a T>)
        ensures
            shown(final(lines)@) == shown(old(lines)@) + in_order(*node),
        decreases node,
    {
        match node {
            None => {
            },
            Some(n) => {
                Self::dfs(&n.smaller, lines);
                let ghost upto = lines@;
                lines.push(&n.value);
                assert(shown(lines@) =~= shown(upto) + seq![n.value]);
                Self::dfs(&n.larger, lines);
            },
        }
    }
}

/// The values that a sequence of references points at.
pub open spec fn shown<T>(lines: Seq<&T>) -> Seq<T> {
    Seq::new(lines.len(), |i: int| *lines[i])
}

} // verus!
