//! A doubly linked list, with places counted from the front (0, 1, 2, ...)
//! or from the back (-1, -2, ...).
//!
//! The nodes live side by side in one vector and name their neighbours by
//! their places in that vector.  The front and the back are reached at
//! once, any other node by following the links from the nearer-named end.
//! A node that is taken out leaves no gap: the vector's last node moves
//! into its cell and its neighbours are told.

use vstd::prelude::*;

verus! {

struct Node<T> {
    value: T,
    next: Option<usize>,
    previous: Option<usize>,
}

/// A sequence of values in doubly linked nodes.
pub struct DoublyLinkedList<T> {
    cells: Vec<Node<T>>,
    head: Option<usize>,
    tail: Option<usize>,
    /// The cell of each place of the list, front to back.
    order: Ghost<Seq<usize>>,
    /// The place in the list of each cell.
    place: Ghost<Seq<int>>,
}

/// Where a value inserted at `index` comes to stand in a list of `len`
/// values, if `index` is in range.  From the front, `index` is the place
/// itself, up to `len` for the place behind the last value.  From the back,
/// -1 is the place behind the last value, -2 the place in front of it, and
/// so on down to `-(len + 1)` for the place in front of the first value.
pub open spec fn insert_position(len: int, index: int) -> Option<int> {
    if 0 <= index <= len {
        Some(index)
    } else if -(len + 1) <= index < 0 {
        Some(len + index + 1)
    } else {
        None
    }
}

/// Which value of a list of `len` values `index` takes out, if any.  From
/// the front, `index` is the place itself, and `len` names the last value
/// once more.  From the back, -1 is the last value and `-len` the first.
pub open spec fn take_position(len: int, index: int) -> Option<int> {
    if len == 0 {
        None
    } else if 0 <= index < len {
        Some(index)
    } else if index == len {
        Some(len - 1)
    } else if -len <= index < 0 {
        Some(len + index)
    } else {
        None
    }
}

/// The cell in front of place `i`, if there is one.
spec fn before(order: Seq<usize>, i: int) -> Option<usize> {
    if 0 < i <= order.len() {
        Some(order[i - 1])
    } else {
        None
    }
}

/// The cell behind place `i`, if there is one.
spec fn after(order: Seq<usize>, i: int) -> Option<usize> {
    if -1 <= i < order.len() - 1 {
        Some(order[i + 1])
    } else {
        None
    }
}

/// The links of the cells named by `order` run along `order`, and `head`
/// and `tail` name its two ends.
#[verifier::opaque]
spec fn linked<T>(
    cells: Seq<Node<T>>,
    order: Seq<usize>,
    head: Option<usize>,
    tail: Option<usize>,
) -> bool {
    &&& forall|i: int| 0 <= i < order.len() ==> #[trigger] order[i] < cells.len()
    &&& forall|i: int|
        0 <= i < order.len() ==> (#[trigger] cells[order[i] as int]).previous == before(order, i)
    &&& forall|i: int|
        0 <= i < order.len() ==> (#[trigger] cells[order[i] as int]).next == after(order, i)
    &&& head == after(order, -1)
    &&& tail == before(order, order.len() as int)
}

/// `order` and `place` pair the places of a list of `n` values with the
/// cells `0..n`, each being the other read backwards.
#[verifier::opaque]
spec fn paired(order: Seq<usize>, place: Seq<int>, n: int) -> bool {
    &&& order.len() == n
    &&& place.len() == n
    &&& forall|i: int| 0 <= i < n ==> 0 <= #[trigger] order[i] < n && place[order[i] as int] == i
    &&& forall|k: int| 0 <= k < n ==> 0 <= #[trigger] place[k] < n && order[place[k]] == k
}

/// The values of the cells in the order of the list.
spec fn values<T>(cells: Seq<Node<T>>, order: Seq<usize>) -> Seq<T> {
    Seq::new(order.len(), |i: int| cells[order[i] as int].value)
}

/// What the links say at place `i`.
proof fn lemma_links_at<T>(
    cells: Seq<Node<T>>,
    order: Seq<usize>,
    place: Seq<int>,
    head: Option<usize>,
    tail: Option<usize>,
    i: int,
)
    requires
        paired(order, place, cells.len() as int),
        linked(cells, order, head, tail),
        0 <= i < cells.len(),
    ensures
        order.len() == cells.len(),
        order[i] < cells.len(),
        cells[order[i] as int].previous == before(order, i),
        cells[order[i] as int].next == after(order, i),
        before(order, i) matches Some(x) ==> x < cells.len(),
        after(order, i) matches Some(y) ==> y < cells.len(),
{
    reveal(paired);
    reveal(linked);
}

/// What the two ends say.
proof fn lemma_ends<T>(
    cells: Seq<Node<T>>,
    order: Seq<usize>,
    place: Seq<int>,
    head: Option<usize>,
    tail: Option<usize>,
)
    requires
        paired(order, place, cells.len() as int),
        linked(cells, order, head, tail),
    ensures
        order.len() == cells.len(),
        head == after(order, -1),
        tail == before(order, cells.len() as int),
        head matches Some(x) ==> x < cells.len(),
        tail matches Some(y) ==> y < cells.len(),
{
    reveal(paired);
    reveal(linked);
}

impl<T> View for DoublyLinkedList<T> {
    type V = Seq<T>;

    /// The values of the list, front to back.
    closed spec fn view(&self) -> Seq<T> {
        values(self.cells@, self.order@)
    }
}

impl<T> DoublyLinkedList<T> {
    /// Every cell is a node of the list, and the links of the nodes agree
    /// with each other and with the two ends.
    pub closed spec fn wf(&self) -> bool {
        &&& paired(self.order@, self.place@, self.cells@.len() as int)
        &&& linked(self.cells@, self.order@, self.head, self.tail)
    }

    /// The empty list.
    pub fn new() -> (list: Self)
        ensures
            list.wf(),
            list@ == Seq::<T>::empty(),
    {
        let list = DoublyLinkedList {
            cells: Vec::new(),
            head: None,
            tail: None,
            order: Ghost(Seq::empty()),
            place: Ghost(Seq::empty()),
        };
        proof {
            reveal(paired);
            reveal(linked);
        }
        list
    }

    /// Number of values in the list.
    pub fn get_length(&self) -> (n: usize)
        requires
            self.wf(),
        ensures
            n == self@.len(),
    {
        proof {
            reveal(paired);
        }
        self.cells.len()
    }

    /// The cell that is reached from the front by following `steps` links.
    fn walk_forward(&self, steps: usize) -> (at: usize)
        requires
            self.wf(),
            steps < self@.len(),
        ensures
            at == self.order@[steps as int],
    {
        proof {
            lemma_ends(self.cells@, self.order@, self.place@, self.head, self.tail);
        }
        let mut at = self.head.unwrap();
        let mut i: usize = 0;
        while i < steps
            invariant
                self.wf(),
                i <= steps < self.order@.len() == self.cells@.len(),
                at == self.order@[i as int],
            decreases steps - i,
        {
            proof {
                lemma_links_at(self.cells@, self.order@, self.place@, self.head, self.tail, i as int);
            }
            at = self.cells[at].next.unwrap();
            i += 1;
        }
        at
    }

    /// The cell that is reached from the back by following `steps` links.
    fn walk_backward(&self, steps: usize) -> (at: usize)
        requires
            self.wf(),
            steps < self@.len(),
        ensures
            at == self.order@[self@.len() - 1 - steps],
    {
        proof {
            lemma_ends(self.cells@, self.order@, self.place@, self.head, self.tail);
        }
        let mut at = self.tail.unwrap();
        let mut i: usize = 0;
        while i < steps
            invariant
                self.wf(),
                i <= steps < self.order@.len() == self.cells@.len(),
                at == self.order@[self.order@.len() - 1 - i],
            decreases steps - i,
        {
            proof {
                lemma_links_at(
                    self.cells@,
                    self.order@,
                    self.place@,
                    self.head,
                    self.tail,
                    self.order@.len() - 1 - i,
                );
            }
            at = self.cells[at].previous.unwrap();
            i += 1;
        }
        at
    }
}

impl<T> DoublyLinkedList<T> {
    /// Puts a new node with `value` between the neighbours `a` and `b`,
    /// either of which may be missing at an end of the list.
    fn link_between(&mut self, a: Option<usize>, b: Option<usize>, value: T, Ghost(at): Ghost<int>)
        requires
            old(self).wf(),
            0 <= at <= old(self)@.len(),
            a == before(old(self).order@, at),
            b == after(old(self).order@, at - 1),
        ensures
            final(self).wf(),
            final(self)@ == old(self)@.insert(at, value),
    {
        let n = self.cells.len();
        let ghost order = self.order@;
        let ghost place = self.place@;
        let ghost cells = self.cells@;
        proof {
            lemma_ends(cells, order, place, self.head, self.tail);
            if at < n {
                lemma_links_at(cells, order, place, self.head, self.tail, at);
            }
        }
        self.cells.push(Node { value, next: b, previous: a });
        match a {
            Some(x) => {
                self.cells[x].next = Some(n);
            },
            None => {
                self.head = Some(n);
            },
        }
        match b {
            Some(y) => {
                self.cells[y].previous = Some(n);
            },
            None => {
                self.tail = Some(n);
            },
        }
        self.order = Ghost(order.insert(at, n));
        self.place = Ghost(
            Seq::new(
                (n + 1) as nat,
                |k: int|
                    if k == n {
                        at
                    } else if place[k] >= at {
                        place[k] + 1
                    } else {
                        place[k]
                    },
            ),
        );
        proof {
            reveal(paired);
            reveal(linked);
            let grown = self.order@;
            let now = self.cells@;
            assert forall|i: int| 0 <= i < grown.len() implies (#[trigger] now[grown[i] as int]).previous
                == before(grown, i) && now[grown[i] as int].next == after(grown, i) by {}
            assert(self@ =~= old(self)@.insert(at, value)) by {
                assert forall|i: int| 0 <= i < grown.len() implies self@[i] == old(self)@.insert(
                    at,
                    value,
                )[i] by {}
            }
        }
    }
}

/// The name of a cell once the vector's last cell has moved into the cell
/// `gap`.
spec fn renamed(cell: usize, last: usize, gap: usize) -> usize {
    if cell == last {
        gap
    } else {
        cell
    }
}

/// The place of a cell once the node at place `at` is gone.
spec fn shifted(place: Seq<int>, at: int, cell: int) -> int {
    if place[cell] > at {
        place[cell] - 1
    } else {
        place[cell]
    }
}

/// `loose` is `cells` after the neighbours `a` and `b` of a node have been
/// linked to each other past it.
spec fn bridged<T>(
    cells: Seq<Node<T>>,
    loose: Seq<Node<T>>,
    a: Option<usize>,
    b: Option<usize>,
) -> bool {
    &&& loose.len() == cells.len()
    &&& forall|k: int|
        0 <= k < cells.len() ==> {
            &&& (#[trigger] loose[k]).value == cells[k].value
            &&& loose[k].previous == if b == Some(k as usize) {
                a
            } else {
                cells[k].previous
            }
            &&& loose[k].next == if a == Some(k as usize) {
                b
            } else {
                cells[k].next
            }
        }
}

/// `short` and `place` pair the places of a list of `n - 1` values with
/// the cells `0..n` but `gap`, the node at place `at` being gone.
#[verifier::opaque]
spec fn paired_without(short: Seq<usize>, place: Seq<int>, at: int, gap: usize, n: int) -> bool {
    &&& short.len() == n - 1
    &&& place.len() == n
    &&& 0 <= gap < n
    &&& forall|i: int|
        0 <= i < n - 1 ==> 0 <= #[trigger] short[i] < n && short[i] != gap && shifted(
            place,
            at,
            short[i] as int,
        ) == i
    &&& forall|k: int|
        0 <= k < n && k != gap ==> 0 <= #[trigger] shifted(place, at, k) < n - 1 && short[shifted(
            place,
            at,
            k,
        )] == k
}

/// Linking the neighbours of the node at place `at` to each other leaves
/// the other nodes linked along the list without it.
proof fn lemma_bridged<T>(
    cells: Seq<Node<T>>,
    order: Seq<usize>,
    place: Seq<int>,
    head: Option<usize>,
    tail: Option<usize>,
    at: int,
    loose: Seq<Node<T>>,
    head1: Option<usize>,
    tail1: Option<usize>,
)
    requires
        paired(order, place, cells.len() as int),
        linked(cells, order, head, tail),
        0 <= at < order.len(),
        bridged(cells, loose, before(order, at), after(order, at)),
        head1 == if before(order, at) is None {
            after(order, at)
        } else {
            head
        },
        tail1 == if after(order, at) is None {
            before(order, at)
        } else {
            tail
        },
    ensures
        paired_without(order.remove(at), place, at, order[at], cells.len() as int),
        linked(loose, order.remove(at), head1, tail1),
        values(loose, order.remove(at)) == values(cells, order).remove(at),
{
    reveal(paired);
    reveal(linked);
    reveal(paired_without);
}

/// `now` is `loose` after its last cell has moved into the cell `gap` and
/// the neighbours of the moved node have been given its new name.
spec fn moved<T>(loose: Seq<Node<T>>, now: Seq<Node<T>>, gap: usize, last: usize) -> bool {
    let told_before = loose[last as int].previous;
    let told_after = loose[last as int].next;
    &&& now.len() == last
    &&& last + 1 == loose.len()
    &&& forall|k: int|
        0 <= k < last ==> {
            let from = if k == gap {
                last as int
            } else {
                k
            };
            &&& (#[trigger] now[k]).value == loose[from].value
            &&& now[k].previous == if gap != last && told_after == Some(k as usize) {
                Some(gap)
            } else {
                loose[from].previous
            }
            &&& now[k].next == if gap != last && told_before == Some(k as usize) {
                Some(gap)
            } else {
                loose[from].next
            }
        }
}

/// Moving the last cell into the gap keeps the nodes linked along the
/// list, under their new names.
proof fn lemma_moved<T>(
    loose: Seq<Node<T>>,
    short: Seq<usize>,
    place: Seq<int>,
    head1: Option<usize>,
    tail1: Option<usize>,
    at: int,
    gap: usize,
    now: Seq<Node<T>>,
    head2: Option<usize>,
    tail2: Option<usize>,
)
    requires
        paired_without(short, place, at, gap, loose.len() as int),
        linked(loose, short, head1, tail1),
        moved(loose, now, gap, (loose.len() - 1) as usize),
        head2 == if gap != loose.len() - 1 && loose[loose.len() - 1].previous is None {
            Some(gap)
        } else {
            head1
        },
        tail2 == if gap != loose.len() - 1 && loose[loose.len() - 1].next is None {
            Some(gap)
        } else {
            tail1
        },
    ensures
        paired(
            Seq::new(short.len(), |i: int| renamed(short[i], (loose.len() - 1) as usize, gap)),
            Seq::new(
                (loose.len() - 1) as nat,
                |k: int|
                    shifted(
                        place,
                        at,
                        if k == gap {
                            loose.len() - 1
                        } else {
                            k
                        },
                    ),
            ),
            loose.len() - 1,
        ),
        linked(
            now,
            Seq::new(short.len(), |i: int| renamed(short[i], (loose.len() - 1) as usize, gap)),
            head2,
            tail2,
        ),
        values(
            now,
            Seq::new(short.len(), |i: int| renamed(short[i], (loose.len() - 1) as usize, gap)),
        ) == values(loose, short),
{
    reveal(paired);
    reveal(linked);
    reveal(paired_without);
    let n = loose.len() as int;
    let last = (n - 1) as usize;
    let spot = Seq::new(
        (n - 1) as nat,
        |k: int|
            shifted(
                place,
                at,
                if k == gap {
                    n - 1
                } else {
                    k
                },
            ),
    );
    if gap != last {
        let r = shifted(place, at, last as int);
    }
}

/// The neighbours of the node in the last cell are other cells.
proof fn lemma_last_cell<T>(
    loose: Seq<Node<T>>,
    short: Seq<usize>,
    place: Seq<int>,
    head1: Option<usize>,
    tail1: Option<usize>,
    at: int,
    gap: usize,
)
    requires
        paired_without(short, place, at, gap, loose.len() as int),
        linked(loose, short, head1, tail1),
        gap != loose.len() - 1,
    ensures
        loose[loose.len() - 1].previous matches Some(x) ==> x < loose.len() - 1,
        loose[loose.len() - 1].next matches Some(y) ==> y < loose.len() - 1,
{
    reveal(linked);
    reveal(paired_without);
    let last = loose.len() - 1;
    let r = shifted(place, at, last);
}

impl<T> DoublyLinkedList<T> {
    /// Takes the node in the cell `gap`, which stands at place `at`, out of
    /// the list and returns its value.
    fn unlink(&mut self, gap: usize, Ghost(at): Ghost<int>) -> (value: T)
        requires
            old(self).wf(),
            0 <= at < old(self)@.len(),
            gap == old(self).order@[at],
        ensures
            final(self).wf(),
            final(self)@ == old(self)@.remove(at),
            value == old(self)@[at],
    {
        let ghost order = self.order@;
        let ghost place = self.place@;
        let ghost cells = self.cells@;
        proof {
            lemma_ends(cells, order, place, self.head, self.tail);
            lemma_links_at(cells, order, place, self.head, self.tail, at);
        }
        let last = self.cells.len() - 1;
        let a = self.cells[gap].previous;
        let b = self.cells[gap].next;
        match a {
            Some(x) => {
                self.cells[x].next = b;
            },
            None => {
                self.head = b;
            },
        }
        match b {
            Some(y) => {
                self.cells[y].previous = a;
            },
            None => {
                self.tail = a;
            },
        }
        let ghost short = order.remove(at);
        let ghost loose = self.cells@;
        let ghost head1 = self.head;
        let ghost tail1 = self.tail;
        proof {
            lemma_bridged(cells, order, place, old(self).head, old(self).tail, at, loose, head1, tail1);
        }
        let node = self.cells.swap_remove(gap);
        if gap != last {
            proof {
                lemma_last_cell(loose, short, place, head1, tail1, at, gap);
            }
            let told_before = self.cells[gap].previous;
            let told_after = self.cells[gap].next;
            match told_before {
                Some(x) => {
                    self.cells[x].next = Some(gap);
                },
                None => {
                    self.head = Some(gap);
                },
            }
            match told_after {
                Some(y) => {
                    self.cells[y].previous = Some(gap);
                },
                None => {
                    self.tail = Some(gap);
                },
            }
        }
        self.order = Ghost(Seq::new(short.len(), |i: int| renamed(short[i], last, gap)));
        self.place = Ghost(
            Seq::new(
                last as nat,
                |k: int|
                    shifted(
                        place,
                        at,
                        if k == gap {
                            last as int
                        } else {
                            k
                        },
                    ),
            ),
        );
        proof {
            lemma_moved(loose, short, place, head1, tail1, at, gap, self.cells@, self.head, self.tail);
        }
        node.value
    }
}

impl<T> DoublyLinkedList<T> {
    /// Puts `value` at the place named by `index`.  Fails, leaving the list
    /// as it was, when `index` is out of range.  A place named from the
    /// front is reached by walking from the front, one named from the back
    /// by walking from the back.
    pub fn insert_by_index(&mut self, index: i32, value: T) -> (done: Result<(), ()>)
        requires
            old(self).wf(),
        ensures
            final(self).wf(),
            done is Ok <==> insert_position(old(self)@.len() as int, index as int) is Some,
            match insert_position(old(self)@.len() as int, index as int) {
                Some(place) => final(self)@ == old(self)@.insert(place, value),
                None => final(self)@ == old(self)@,
            },
    {
        let n = self.get_length();
        let back: usize = if index < 0 {
            (-(index as i64)) as usize
        } else {
            0
        };
        if (index >= 0 && index as usize > n) || (index < 0 && back - 1 > n) {
            return Err(());
        }
        proof {
            lemma_ends(self.cells@, self.order@, self.place@, self.head, self.tail);
        }
        if index == 0 || (index < 0 && back - 1 == n) {
            self.link_between(None, self.head, value, Ghost(0));
        } else if index == -1 || (index >= 0 && index as usize == n) {
            self.link_between(self.tail, None, value, Ghost(n as int));
        } else if index >= 1 {
            let a = self.walk_forward((index - 1) as usize);
            proof {
                lemma_links_at(
                    self.cells@,
                    self.order@,
                    self.place@,
                    self.head,
                    self.tail,
                    index - 1,
                );
            }
            let b = self.cells[a].next;
            self.link_between(Some(a), b, value, Ghost(index as int));
        } else {
            let b = self.walk_backward(back - 2);
            proof {
                lemma_links_at(
                    self.cells@,
                    self.order@,
                    self.place@,
                    self.head,
                    self.tail,
                    n + 1 - back,
                );
            }
            let a = self.cells[b].previous;
            self.link_between(a, Some(b), value, Ghost(n + 1 - back));
        }
        Ok(())
    }

    /// Takes out the value named by `index`.  Returns `None`, leaving the
    /// list as it was, when `index` names no value.
    pub fn get_by_index(&mut self, index: i32) -> (taken: Option<T>)
        requires
            old(self).wf(),
        ensures
            final(self).wf(),
            match take_position(old(self)@.len() as int, index as int) {
                Some(place) => taken == Some(old(self)@[place]) && final(self)@ == old(self)@.remove(
                    place,
                ),
                None => taken is None && final(self)@ == old(self)@,
            },
    {
        let n = self.get_length();
        let back: usize = if index < 0 {
            (-(index as i64)) as usize
        } else {
            0
        };
        if n == 0 || (index >= 0 && index as usize > n) || (index < 0 && back > n) {
            return None;
        }
        proof {
            lemma_ends(self.cells@, self.order@, self.place@, self.head, self.tail);
        }
        if index == 0 || (index < 0 && back == n) {
            let first = self.head.unwrap();
            Some(self.unlink(first, Ghost(0)))
        } else if index == -1 || (index >= 0 && index as usize == n) {
            let last = self.tail.unwrap();
            Some(self.unlink(last, Ghost(n - 1)))
        } else if index >= 1 {
            let found = self.walk_forward(index as usize);
            Some(self.unlink(found, Ghost(index as int)))
        } else {
            let found = self.walk_backward(back - 1);
            Some(self.unlink(found, Ghost(n - back)))
        }
    }

    /// Takes out the first value, if there is one.
    pub fn get_first(&mut self) -> (taken: Option<T>)
        requires
            old(self).wf(),
        ensures
            final(self).wf(),
            taken == if old(self)@.len() > 0 {
                Some(old(self)@.first())
            } else {
                None
            },
            final(self)@ == if old(self)@.len() > 0 {
                old(self)@.drop_first()
            } else {
                old(self)@
            },
    {
        let taken = self.get_by_index(0);
        taken
    }

    /// Takes out the last value, if there is one.
    pub fn get_last(&mut self) -> (taken: Option<T>)
        requires
            old(self).wf(),
        ensures
            final(self).wf(),
            taken == if old(self)@.len() > 0 {
                Some(old(self)@.last())
            } else {
                None
            },
            final(self)@ == if old(self)@.len() > 0 {
                old(self)@.drop_last()
            } else {
                old(self)@
            },
    {
        let taken = self.get_by_index(-1);
        taken
    }

    /// Puts `value` in front of all others.
    pub fn insert_first(&mut self, value: T) -> (done: Result<(), ()>)
        requires
            old(self).wf(),
        ensures
            final(self).wf(),
            done is Ok,
            final(self)@ == seq![value] + old(self)@,
    {
        let done = self.insert_by_index(0, value);
        done
    }

    /// Puts `value` behind all others.
    pub fn insert_last(&mut self, value: T) -> (done: Result<(), ()>)
        requires
            old(self).wf(),
        ensures
            final(self).wf(),
            done is Ok,
            final(self)@ == old(self)@.push(value),
    {
        let done = self.insert_by_index(-1, value);
        done
    }
}

} // verus!
