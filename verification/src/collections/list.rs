//! A singly linked list of owned nodes with a cached length, and the
//! queue-and-stack interface it offers.

use std::mem::swap;
use vstd::prelude::*;

verus! {

struct Node<T> {
    value: T,
    next: Option<Box<Node<T>>>,
}

/// The values of a chain of nodes, first node first.
spec fn chain<T>(link: Option<Box<Node<T>>>) -> Seq<T>
    decreases link,
{
    match link {
        None => Seq::empty(),
        Some(node) => seq![node.value] + chain(node.next),
    }
}

impl<T> Node<T> {
    /// The values from this node to the end of its chain.
    spec fn items(self) -> Seq<T> {
        seq![self.value] + chain(self.next)
    }

    /// A mutable reference to the value `index` nodes further down.
    fn value_mut(&mut self, index: usize) -> (slot: &mut T)
        requires
            index < old(self).items().len(),
        ensures
            *slot == old(self).items()[index as int],
            final(self).items() == old(self).items().update(index as int, *final(slot)),
        decreases index,
    {
        if index == 0 {
            &mut self.value
        } else {
            self.next.as_mut().unwrap().value_mut(index - 1)
        }
    }
}

/// A sequence of values held in a singly linked chain of nodes.
pub struct List<T> {
    head: Option<Box<Node<T>>>,
    length: usize,
}

impl<T> View for List<T> {
    type V = Seq<T>;

    /// The values of the list, first to last.
    closed spec fn view(&self) -> Seq<T> {
        chain(self.head)
    }
}

impl<T> List<T> {
    /// The cached length agrees with the number of nodes.
    pub closed spec fn wf(&self) -> bool {
        self.length == chain(self.head).len()
    }

    /// The empty list.
    pub fn new() -> (list: Self)
        ensures
            list.wf(),
            list@ == Seq::<T>::empty(),
    {
        List { head: None, length: 0 }
    }

    /// Number of values in the list.
    pub fn get_length(&self) -> (n: usize)
        requires
            self.wf(),
        ensures
            n == self@.len(),
    {
        self.length
    }

    /// Puts `value` at position `index`, moving later values one place
    /// back.  Fails, leaving the list as it was, when `index` is past the
    /// end or the length can grow no further.
    pub fn insert_by_index(&mut self, index: usize, value: T) -> (done: Result<(), ()>)
        requires
            old(self).wf(),
        ensures
            final(self).wf(),
            done is Ok <==> index <= old(self)@.len() && old(self)@.len() < usize::MAX,
            done is Ok ==> final(self)@ == old(self)@.insert(index as int, value),
            done is Err ==> final(self)@ == old(self)@,
    {
        if index > self.length || self.length == usize::MAX {
            return Err(());
        }
        let ghost before = self@;
        let mut head = None;
        swap(&mut head, &mut self.head);
        if index == 0 {
            let node = Node { value, next: head };
            self.head = Some(Box::new(node));
            self.length += 1;
            return Ok(());
        }
        let mut iter: &mut Node<T> = head.as_mut().unwrap();
        let mut steps: usize = index - 1;
        while steps > 0
            invariant
                steps < iter.items().len(),
                final(iter).items() == iter.items().insert(steps + 1, value) ==> chain(
                    after_borrow(head),
                ) == before.insert(index as int, value),
            decreases steps,
        {
            proof {
                let start = *iter;
                let rest = chain(start.next);
                assert forall|fin: Node<T>|
                    fin.value == start.value && #[trigger] chain(fin.next) == rest.insert(
                        steps as int,
                        value,
                    ) implies #[trigger] fin.items() == start.items().insert(steps + 1, value) by {}
            }
            iter = iter.next.as_mut().unwrap();
            steps -= 1;
        }
        let ghost start = *iter;
        let mut old_next = None;
        swap(&mut old_next, &mut iter.next);
        iter.next = Some(Box::new(Node { value, next: old_next }));
        assert(iter.items() =~= start.items().insert(1, value));
        self.head = head;
        self.length += 1;
        Ok(())
    }

    /// Takes the value at position `index` out of the list, moving later
    /// values one place forward.  Returns `None`, leaving the list as it
    /// was, when there is no such position.
    pub fn get_by_index(&mut self, index: usize) -> (taken: Option<T>)
        requires
            old(self).wf(),
        ensures
            final(self).wf(),
            taken == if index < old(self)@.len() {
                Some(old(self)@[index as int])
            } else {
                None
            },
            final(self)@ == if index < old(self)@.len() {
                old(self)@.remove(index as int)
            } else {
                old(self)@
            },
    {
        if index >= self.length {
            return None;
        }
        let ghost before = self@;
        let mut head = None;
        swap(&mut head, &mut self.head);
        if index == 0 {
            let first = *head.unwrap();
            self.head = first.next;
            self.length -= 1;
            return Some(first.value);
        }
        let mut prev: &mut Node<T> = head.as_mut().unwrap();
        let mut steps: usize = index - 1;
        while steps > 0
            invariant
                steps + 1 < prev.items().len(),
                prev.items()[steps + 1] == before[index as int],
                final(prev).items() == prev.items().remove(steps + 1) ==> chain(after_borrow(head))
                    == before.remove(index as int),
            decreases steps,
        {
            proof {
                let start = *prev;
                let rest = chain(start.next);
                assert forall|fin: Node<T>|
                    fin.value == start.value && #[trigger] chain(fin.next) == rest.remove(
                        steps as int,
                    ) implies #[trigger] fin.items() == start.items().remove(steps + 1) by {}
            }
            prev = prev.next.as_mut().unwrap();
            steps -= 1;
        }
        let ghost start = *prev;
        let mut target = None;
        swap(&mut target, &mut prev.next);
        let found = *target.unwrap();
        prev.next = found.next;
        proof {
            assert(prev.items() =~= start.items().remove(1));
        }
        self.head = head;
        self.length -= 1;
        Some(found.value)
    }

    /// The value at position `index`, or `None` when there is no such
    /// position.
    pub fn peek_by_index(&self, index: usize) -> (seen: Option<&T>)
        requires
            self.wf(),
        ensures
            seen == if index < self@.len() {
                Some(&self@[index as int])
            } else {
                None
            },
    {
        if index >= self.length {
            return None;
        }
        let mut iter: &Node<T> = self.head.as_ref().unwrap();
        let mut steps: usize = index;
        while steps > 0
            invariant
                steps < iter.items().len(),
                iter.items()[steps as int] == self@[index as int],
            decreases steps,
        {
            iter = iter.next.as_ref().unwrap();
            steps -= 1;
        }
        Some(&iter.value)
    }

    /// A mutable reference to the value at position `index`, or `None` when
    /// there is no such position.  Writing through the reference changes
    /// that one value of the list.
    pub fn peek_mut_by_index(&mut self, index: usize) -> (seen: Option<&mut T>)
        requires
            old(self).wf(),
        ensures
            seen is Some <==> index < old(self)@.len(),
            seen matches Some(slot) ==> {
                &&& *slot == old(self)@[index as int]
                &&& final(self)@ == old(self)@.update(index as int, *final(slot))
                &&& final(self).wf()
            },
            seen is None ==> *final(self) == *old(self),
    {
        if index >= self.length {
            return None;
        }
        Some(self.head.as_mut().unwrap().value_mut(index))
    }

    /// Turns the list into a source that hands its values out front to back.
    pub fn into_iter(self) -> (iter: IntoIter<T>)
        requires
            self.wf(),
        ensures
            iter@ == self@,
            iter.wf(),
    {
        IntoIter(self)
    }
}

/// A sequence that can be used as a queue and as a stack: values go in and
/// come out at either end, and both ends can be looked at in place.
pub trait QueueStackMix<T> {
    /// The values held, first to last.
    spec fn contents(&self) -> Seq<T>;

    /// The holder's own invariant.
    spec fn valid(&self) -> bool;

    /// Puts `value` in front of all others, or fails and changes nothing.
    fn push_to_beginning(&mut self, value: T) -> (done: Result<(), ()>)
        requires
            old(self).valid(),
        ensures
            final(self).valid(),
            done is Ok ==> final(self).contents() == seq![value] + old(self).contents(),
            done is Err ==> final(self).contents() == old(self).contents(),
    ;

    /// Takes the first value out, if there is one.
    fn pop_from_beginning(&mut self) -> (taken: Option<T>)
        requires
            old(self).valid(),
        ensures
            final(self).valid(),
            taken is Some <==> old(self).contents().len() > 0,
            taken matches Some(v) ==> v == old(self).contents().first() && final(self).contents()
                == old(self).contents().drop_first(),
            taken is None ==> final(self).contents() == old(self).contents(),
    ;

    /// Puts `value` behind all others, or fails and changes nothing.
    fn push_to_end(&mut self, value: T) -> (done: Result<(), ()>)
        requires
            old(self).valid(),
        ensures
            final(self).valid(),
            done is Ok ==> final(self).contents() == old(self).contents().push(value),
            done is Err ==> final(self).contents() == old(self).contents(),
    ;

    /// Takes the last value out, if there is one.
    fn pop_from_end(&mut self) -> (taken: Option<T>)
        requires
            old(self).valid(),
        ensures
            final(self).valid(),
            taken is Some <==> old(self).contents().len() > 0,
            taken matches Some(v) ==> v == old(self).contents().last() && final(self).contents()
                == old(self).contents().drop_last(),
            taken is None ==> final(self).contents() == old(self).contents(),
    ;

    /// The first value, if there is one.
    fn peek_beginning(&self) -> (seen: Option<&T>)
        requires
            self.valid(),
        ensures
            seen is Some <==> self.contents().len() > 0,
            seen matches Some(v) ==> *v == self.contents().first(),
    ;

    /// The last value, if there is one.
    fn peek_last(&self) -> (seen: Option<&T>)
        requires
            self.valid(),
        ensures
            seen is Some <==> self.contents().len() > 0,
            seen matches Some(v) ==> *v == self.contents().last(),
    ;

    /// A mutable reference to the first value, if there is one.  Writing
    /// through it changes that value and nothing else.
    fn peek_mut_beginning(&mut self) -> (seen: Option<&mut T>)
        requires
            old(self).valid(),
        ensures
            seen is Some <==> old(self).contents().len() > 0,
            seen matches Some(slot) ==> {
                &&& *slot == old(self).contents().first()
                &&& final(self).contents() == old(self).contents().update(0, *final(slot))
                &&& final(self).valid()
            },
            seen is None ==> final(self).contents() == old(self).contents() && final(self).valid(),
    ;

    /// A mutable reference to the last value, if there is one.  Writing
    /// through it changes that value and nothing else.
    fn peek_mut_last(&mut self) -> (seen: Option<&mut T>)
        requires
            old(self).valid(),
        ensures
            seen is Some <==> old(self).contents().len() > 0,
            seen matches Some(slot) ==> {
                &&& *slot == old(self).contents().last()
                &&& final(self).contents() == old(self).contents().update(
                    old(self).contents().len() - 1,
                    *final(slot),
                )
                &&& final(self).valid()
            },
            seen is None ==> final(self).contents() == old(self).contents() && final(self).valid(),
    ;
}

impl<T> QueueStackMix<T> for List<T> {
    open spec fn contents(&self) -> Seq<T> {
        self@
    }

    open spec fn valid(&self) -> bool {
        self.wf()
    }

    fn push_to_beginning(&mut self, value: T) -> (done: Result<(), ()>)
        ensures
            done is Ok <==> old(self)@.len() < usize::MAX,
    {
        let done = self.insert_by_index(0, value);
        done
    }

    fn pop_from_beginning(&mut self) -> (taken: Option<T>) {
        let taken = self.get_by_index(0);
        taken
    }

    fn push_to_end(&mut self, value: T) -> (done: Result<(), ()>)
        ensures
            done is Ok <==> old(self)@.len() < usize::MAX,
    {
        let done = self.insert_by_index(self.length, value);
        done
    }

    fn pop_from_end(&mut self) -> (taken: Option<T>) {
        if self.length == 0 {
            return None;
        }
        let taken = self.get_by_index(self.length - 1);
        taken
    }

    fn peek_beginning(&self) -> (seen: Option<&T>) {
        self.peek_by_index(0)
    }

    fn peek_last(&self) -> (seen: Option<&T>) {
        if self.length == 0 {
            return None;
        }
        self.peek_by_index(self.length - 1)
    }

    fn peek_mut_beginning(&mut self) -> (seen: Option<&mut T>) {
        self.peek_mut_by_index(0)
    }

    fn peek_mut_last(&mut self) -> (seen: Option<&mut T>) {
        if self.length == 0 {
            return None;
        }
        self.peek_mut_by_index(self.length - 1)
    }
}

impl<T> Drop for List<T> {
    /// Unlinks the nodes one by one, so that giving up a long list does not
    /// nest one call per node.
    fn drop(&mut self)
        opens_invariants none
        no_unwind
    {
        let mut iter = None;
        swap(&mut iter, &mut self.head);
        loop
            decreases chain(iter).len(),
        {
            match iter {
                None => {
                    break ;
                },
                Some(node) => {
                    let Node { value: _, next } = *node;
                    iter = next;
                },
            }
        }
    }
}

/// The values of a list that are still to be handed out.
pub struct IntoIter<T>(List<T>);

impl<T> View for IntoIter<T> {
    type V = Seq<T>;

    /// The values not yet handed out, next one first.
    closed spec fn view(&self) -> Seq<T> {
        self.0@
    }
}

impl<T> IntoIter<T> {
    /// The list inside is well-formed.
    pub closed spec fn wf(&self) -> bool {
        self.0.wf()
    }

    /// Hands out the next value, or `None` when none is left.
    pub fn next(&mut self) -> (item: Option<T>)
        requires
            old(self).wf(),
        ensures
            final(self).wf(),
            item == if old(self)@.len() > 0 {
                Some(old(self)@[0])
            } else {
                None
            },
            final(self)@ == if old(self)@.len() > 0 {
                old(self)@.remove(0)
            } else {
                old(self)@
            },
    {
        self.0.pop_from_beginning()
    }
}

} // verus!
