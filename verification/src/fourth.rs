//! A doubly linked deque whose nodes live in an index-addressed arena.
//!
//! Every node holds one element and the slot numbers of its two neighbours.
//! Because a link is a plain number, a node has exactly one owner, the
//! arena, and nothing has to be counted or locked when a node is reached
//! through a link. That the links of neighbours name each other is an
//! invariant of the type, proved once for every operation.

use crate::arena::Arena;
use crate::model::{peeked_front, popped_back, popped_front, pushed_front};
use vstd::prelude::*;

verus! {

/// One element of the chain together with the slots of its neighbours.
struct Node<T> {
    elem: T,
    prev: Option<usize>,
    next: Option<usize>,
}

/// A double-ended queue with constant-time insertion at the front and
/// constant-time removal at both ends.
///
/// Its view is the sequence of its elements from front to back.
pub struct List<T> {
    nodes: Arena<Node<T>>,
    /// Slot of the front node.
    head: Option<usize>,
    /// Slot of the back node.
    tail: Option<usize>,
    /// Slots of the nodes, front to back.
    order: Ghost<Seq<usize>>,
}

/// A draining iterator over a [`List`] that can be advanced from both ends.
///
/// Its view is the sequence of the elements it has yet to yield.
pub struct IntoIter<T>(List<T>);

impl<T> List<T> {
    /// Slot `order[i]` holds a node whose links name its neighbours in
    /// `order`.
    spec fn linked(nodes: Map<usize, Node<T>>, order: Seq<usize>, i: int) -> bool {
        &&& nodes.contains_key(order[i])
        &&& nodes[order[i]].prev == (if i == 0 {
            None
        } else {
            Some(order[i - 1])
        })
        &&& nodes[order[i]].next == (if i == order.len() - 1 {
            None
        } else {
            Some(order[i + 1])
        })
    }

    /// The chain `order` runs through every node once, `head` and `tail` are
    /// its two ends, and each node's links name its neighbours.
    spec fn chained(
        nodes: Map<usize, Node<T>>,
        head: Option<usize>,
        tail: Option<usize>,
        order: Seq<usize>,
    ) -> bool {
        &&& forall|i: int| 0 <= i < order.len() ==> #[trigger] Self::linked(nodes, order, i)
        &&& forall|i: int, j: int| 0 <= i < j < order.len() ==> order[i] != order[j]
        &&& forall|at: usize|
            #[trigger] nodes.contains_key(at) ==> exists|i: int|
                0 <= i < order.len() && #[trigger] order[i] == at
        &&& head == (if order.len() == 0 {
            None
        } else {
            Some(order[0])
        })
        &&& tail == (if order.len() == 0 {
            None
        } else {
            Some(order[order.len() - 1])
        })
    }

    #[verifier::type_invariant]
    spec fn wf(&self) -> bool {
        &&& self.nodes.wf()
        &&& Self::chained(self.nodes@, self.head, self.tail, self.order@)
    }

    /// The elements held by the nodes in `order`, in that order.
    spec fn elems(nodes: Map<usize, Node<T>>, order: Seq<usize>) -> Seq<T> {
        Seq::new(order.len(), |i: int| nodes[order[i]].elem)
    }

    /// The elements from front to back.
    pub closed spec fn view(&self) -> Seq<T> {
        Self::elems(self.nodes@, self.order@)
    }

    /// An empty deque.
    pub fn new() -> (list: Self)
        ensures
            list@ == Seq::<T>::empty(),
    {
        let list = List { nodes: Arena::new(), head: None, tail: None, order: Ghost(Seq::empty()) };
        assert(list@ =~= Seq::<T>::empty());
        list
    }

    /// Puts `elem` in front of all other elements.
    pub fn push_front(&mut self, elem: T)
        ensures
            final(self)@ == pushed_front(old(self)@, elem),
    {
        proof {
            use_type_invariant(&*self);
        }
        let mut taken = List::new();
        core::mem::swap(self, &mut taken);
        let List { mut nodes, head, mut tail, order } = taken;
        let ghost before = nodes@;
        let new_head = nodes.insert(Node { elem, prev: None, next: head });
        match head {
            None => {
                tail = Some(new_head);
            },
            Some(old_head) => {
                assert(Self::linked(before, order@, 0));
                nodes.get_mut(old_head).prev = Some(new_head);
            },
        }
        proof {
            Self::lemma_link_front(before, nodes@, head, taken.tail, order@, new_head, elem);
        }
        *self = List { nodes, head: Some(new_head), tail, order: Ghost(seq![new_head] + order@) };
    }

    /// Removes the front element and returns it; `None` if there is none.
    pub fn pop_front(&mut self) -> (popped: Option<T>)
        ensures
            (popped, final(self)@) == popped_front(old(self)@),
    {
        proof {
            use_type_invariant(&*self);
        }
        let old_head = match self.head {
            None => {
                return None;
            },
            Some(slot) => slot,
        };
        let mut taken = List::new();
        core::mem::swap(self, &mut taken);
        let List { mut nodes, head: _, mut tail, order } = taken;
        let ghost before = nodes@;
        assert(Self::linked(before, order@, 0));
        let node = nodes.remove(old_head);
        match node.next {
            None => {
                tail = None;
            },
            Some(new_head) => {
                assert(Self::linked(before, order@, 1));
                nodes.get_mut(new_head).prev = None;
            },
        }
        proof {
            Self::lemma_unlink_front(before, nodes@, taken.head, taken.tail, order@);
        }
        *self = List { nodes, head: node.next, tail, order: Ghost(order@.drop_first()) };
        Some(node.elem)
    }

    /// Removes the back element and returns it; `None` if there is none.
    pub fn pop_back(&mut self) -> (popped: Option<T>)
        ensures
            (popped, final(self)@) == popped_back(old(self)@),
    {
        proof {
            use_type_invariant(&*self);
        }
        let old_tail = match self.tail {
            None => {
                return None;
            },
            Some(slot) => slot,
        };
        let mut taken = List::new();
        core::mem::swap(self, &mut taken);
        let List { mut nodes, mut head, tail: _, order } = taken;
        let ghost before = nodes@;
        assert(Self::linked(before, order@, order@.len() - 1));
        let node = nodes.remove(old_tail);
        match node.prev {
            None => {
                head = None;
            },
            Some(new_tail) => {
                assert(Self::linked(before, order@, order@.len() - 2));
                nodes.get_mut(new_tail).next = None;
            },
        }
        proof {
            Self::lemma_unlink_back(before, nodes@, taken.head, taken.tail, order@);
        }
        *self = List { nodes, head, tail: node.prev, order: Ghost(order@.drop_last()) };
        Some(node.elem)
    }

    /// A new node in a fresh slot `at`, linked in before the first node of
    /// the chain, makes a chain that starts with it.
    proof fn lemma_link_front(
        before: Map<usize, Node<T>>,
        after: Map<usize, Node<T>>,
        head: Option<usize>,
        tail: Option<usize>,
        order: Seq<usize>,
        at: usize,
        elem: T,
    )
        requires
            Self::chained(before, head, tail, order),
            !before.contains_key(at),
            after =~= ({
                let first = before.insert(at, Node { elem, prev: None, next: head });
                match head {
                    None => first,
                    Some(second) => first.insert(
                        second,
                        Node { prev: Some(at), ..before[second] },
                    ),
                }
            }),
        ensures
            Self::chained(
                after,
                Some(at),
                if tail is None {
                    Some(at)
                } else {
                    tail
                },
                seq![at] + order,
            ),
            Self::elems(after, seq![at] + order) == pushed_front(Self::elems(before, order), elem),
    {
        let grown = seq![at] + order;
        if order.len() > 0 {
            assert(Self::linked(before, order, 0));
        }
        assert forall|i: int| 0 <= i < order.len() implies order[i] != at by {
            assert(Self::linked(before, order, i));
        }
        assert forall|i: int| 0 <= i < grown.len() implies #[trigger] Self::linked(
            after,
            grown,
            i,
        ) by {
            if i > 0 {
                assert(Self::linked(before, order, i - 1));
            }
        }
        assert forall|slot: usize| #[trigger] after.contains_key(slot) implies exists|i: int|
            0 <= i < grown.len() && #[trigger] grown[i] == slot by {
            if slot == at {
                assert(grown[0] == slot);
            } else {
                assert(before.contains_key(slot));
                let i = choose|i: int| 0 <= i < order.len() && #[trigger] order[i] == slot;
                assert(grown[i + 1] == slot);
            }
        }
        assert forall|i: int| 0 <= i < grown.len() implies Self::elems(after, grown)[i]
            == pushed_front(Self::elems(before, order), elem)[i] by {
            if i > 0 {
                assert(Self::linked(before, order, i - 1));
            }
        }
        assert(Self::elems(after, grown) =~= pushed_front(Self::elems(before, order), elem));
    }

    /// With its first node taken out and the node after it made the first,
    /// the chain is the chain of the nodes after the first.
    proof fn lemma_unlink_front(
        before: Map<usize, Node<T>>,
        after: Map<usize, Node<T>>,
        head: Option<usize>,
        tail: Option<usize>,
        order: Seq<usize>,
    )
        requires
            Self::chained(before, head, tail, order),
            order.len() > 0,
            after =~= ({
                let rest = before.remove(order[0]);
                match before[order[0]].next {
                    None => rest,
                    Some(second) => rest.insert(second, Node { prev: None, ..before[second] }),
                }
            }),
        ensures
            Self::chained(
                after,
                before[order[0]].next,
                if before[order[0]].next is None {
                    None
                } else {
                    tail
                },
                order.drop_first(),
            ),
            Self::elems(after, order.drop_first()) == Self::elems(before, order).drop_first(),
    {
        let shrunk = order.drop_first();
        assert(Self::linked(before, order, 0));
        if order.len() > 1 {
            assert(Self::linked(before, order, 1));
        }
        assert forall|i: int| 0 <= i < shrunk.len() implies #[trigger] Self::linked(
            after,
            shrunk,
            i,
        ) by {
            assert(Self::linked(before, order, i + 1));
        }
        assert forall|slot: usize| #[trigger] after.contains_key(slot) implies exists|i: int|
            0 <= i < shrunk.len() && #[trigger] shrunk[i] == slot by {
            assert(before.contains_key(slot));
            let i = choose|i: int| 0 <= i < order.len() && #[trigger] order[i] == slot;
            assert(shrunk[i - 1] == slot);
        }
        assert forall|i: int| 0 <= i < shrunk.len() implies Self::elems(after, shrunk)[i]
            == Self::elems(before, order).drop_first()[i] by {
            assert(Self::linked(before, order, i + 1));
        }
        assert(Self::elems(after, shrunk) =~= Self::elems(before, order).drop_first());
    }

    /// With its last node taken out and the node before it made the last,
    /// the chain is the chain of the nodes before the last.
    proof fn lemma_unlink_back(
        before: Map<usize, Node<T>>,
        after: Map<usize, Node<T>>,
        head: Option<usize>,
        tail: Option<usize>,
        order: Seq<usize>,
    )
        requires
            Self::chained(before, head, tail, order),
            order.len() > 0,
            after =~= ({
                let rest = before.remove(order.last());
                match before[order.last()].prev {
                    None => rest,
                    Some(second) => rest.insert(second, Node { next: None, ..before[second] }),
                }
            }),
        ensures
            Self::chained(
                after,
                if before[order.last()].prev is None {
                    None
                } else {
                    head
                },
                before[order.last()].prev,
                order.drop_last(),
            ),
            Self::elems(after, order.drop_last()) == Self::elems(before, order).drop_last(),
    {
        let shrunk = order.drop_last();
        assert(Self::linked(before, order, order.len() - 1));
        if order.len() > 1 {
            assert(Self::linked(before, order, order.len() - 2));
        }
        assert forall|i: int| 0 <= i < shrunk.len() implies #[trigger] Self::linked(
            after,
            shrunk,
            i,
        ) by {
            assert(Self::linked(before, order, i));
        }
        assert forall|slot: usize| #[trigger] after.contains_key(slot) implies exists|i: int|
            0 <= i < shrunk.len() && #[trigger] shrunk[i] == slot by {
            assert(before.contains_key(slot));
            let i = choose|i: int| 0 <= i < order.len() && #[trigger] order[i] == slot;
            assert(shrunk[i] == slot);
        }
        assert forall|i: int| 0 <= i < shrunk.len() implies Self::elems(after, shrunk)[i]
            == Self::elems(before, order).drop_last()[i] by {
            assert(Self::linked(before, order, i));
        }
        assert(Self::elems(after, shrunk) =~= Self::elems(before, order).drop_last());
    }

    /// A reference to the front element; `None` if there is none.
    ///
    /// The deque cannot be changed while the reference is alive.
    pub fn peek_front(&self) -> (front: Option<&T>)
        ensures
            front == match peeked_front(self@) {
                Some(elem) => Some(&elem),
                None => None,
            },
    {
        proof {
            use_type_invariant(self);
        }
        match self.head {
            None => None,
            Some(slot) => {
                assert(Self::linked(self.nodes@, self.order@, 0));
                Some(&self.nodes.get(slot).elem)
            },
        }
    }

    /// Removes every element, front to back, one pop at a time.
    pub fn clear(&mut self)
        ensures
            final(self)@ == Seq::<T>::empty(),
    {
        loop
            invariant
                true,
            ensures
                self@.len() == 0,
            decreases self@.len(),
        {
            if self.pop_front().is_none() {
                break;
            }
        }
        assert(self@ =~= Seq::<T>::empty());
    }

    /// Turns the deque into an iterator that drains it from both ends.
    pub fn into_iter(self) -> (iter: IntoIter<T>)
        ensures
            iter@ == self@,
    {
        IntoIter(self)
    }
}

impl<T> IntoIter<T> {
    /// The elements that are left, front to back.
    pub closed spec fn view(&self) -> Seq<T> {
        self.0@
    }

    /// Yields the front element of what is left; `None` once nothing is.
    pub fn next(&mut self) -> (item: Option<T>)
        ensures
            (item, final(self)@) == popped_front(old(self)@),
    {
        self.0.pop_front()
    }

    /// Yields the back element of what is left; `None` once nothing is.
    pub fn next_back(&mut self) -> (item: Option<T>)
        ensures
            (item, final(self)@) == popped_back(old(self)@),
    {
        self.0.pop_back()
    }
}

} // verus!
