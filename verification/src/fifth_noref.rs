//! A queue as a singly linked chain with a handle on its last node, so that
//! both `push` at the back and `pop` at the front take constant time.
//!
//! The nodes live in an arena and the handle on the last node is the number
//! of its slot: it owns nothing and cannot dangle, because the invariant of
//! the type keeps it on the last node of the chain.

use crate::arena::Arena;
use crate::model::popped_front;
use vstd::prelude::*;

verus! {

/// One element of the chain and the slot of the node after it.
struct Node<T> {
    elem: T,
    next: Option<usize>,
}

/// A first-in, first-out queue; its view is the sequence of its elements,
/// the oldest first.
pub struct List<T> {
    nodes: Arena<Node<T>>,
    /// Slot of the first node.
    head: Option<usize>,
    /// Slot of the last node.
    tail: Option<usize>,
    /// Slots of the nodes, first to last.
    order: Ghost<Seq<usize>>,
}

impl<T> List<T> {
    /// Slot `order[i]` holds a node whose link names the node after it in
    /// `order`.
    spec fn linked(nodes: Map<usize, Node<T>>, order: Seq<usize>, i: int) -> bool {
        &&& nodes.contains_key(order[i])
        &&& nodes[order[i]].next == (if i == order.len() - 1 {
            None
        } else {
            Some(order[i + 1])
        })
    }

    /// The chain `order` runs through every node once, `head` and `tail` are
    /// its two ends, and each node's link names the node after it.
    spec fn chained(
        nodes: Map<usize, Node<T>>,
        head: Option<usize>,
        tail: Option<usize>,
        order: Seq<usize>,
    ) -> bool {
        &&& forall|i: int| 0 <= i < order.len() ==> #[trigger] Self::linked(nodes, order, i)
        &&& forall|i: int, j: int| 0 <= i < j < order.len() ==> order[i] != order[j]
        &&& forall|at: usize|
            #[trigger] nodes.contains_key(at) ==> exists|i: int|
                0 <= i < order.len() && #[trigger] order[i] == at
        &&& head == (if order.len() == 0 {
            None
        } else {
            Some(order[0])
        })
        &&& tail == (if order.len() == 0 {
            None
        } else {
            Some(order[order.len() - 1])
        })
    }

    #[verifier::type_invariant]
    spec fn wf(&self) -> bool {
        &&& self.nodes.wf()
        &&& Self::chained(self.nodes@, self.head, self.tail, self.order@)
    }

    /// The elements held by the nodes in `order`, in that order.
    spec fn elems(nodes: Map<usize, Node<T>>, order: Seq<usize>) -> Seq<T> {
        Seq::new(order.len(), |i: int| nodes[order[i]].elem)
    }

    /// The elements, the oldest first.
    pub closed spec fn view(&self) -> Seq<T> {
        Self::elems(self.nodes@, self.order@)
    }

    /// An empty queue.
    pub fn new() -> (list: Self)
        ensures
            list@ == Seq::<T>::empty(),
    {
        let list = List { nodes: Arena::new(), head: None, tail: None, order: Ghost(Seq::empty()) };
        assert(list@ =~= Seq::<T>::empty());
        list
    }

    /// Puts `elem` behind all other elements.
    pub fn push(&mut self, elem: T)
        ensures
            final(self)@ == old(self)@.push(elem),
    {
        proof {
            use_type_invariant(&*self);
        }
        let mut taken = List::new();
        core::mem::swap(self, &mut taken);
        let List { mut nodes, mut head, tail, order } = taken;
        let ghost before = nodes@;
        let new_tail = nodes.insert(Node { elem, next: None });
        match tail {
            None => {
                head = Some(new_tail);
            },
            Some(old_tail) => {
                assert(Self::linked(before, order@, order@.len() - 1));
                nodes.get_mut(old_tail).next = Some(new_tail);
            },
        }
        proof {
            Self::lemma_link_back(before, nodes@, taken.head, tail, order@, new_tail, elem);
        }
        *self = List { nodes, head, tail: Some(new_tail), order: Ghost(order@.push(new_tail)) };
    }

    /// Removes the oldest element and returns it; `None` if there is none.
    pub fn pop(&mut self) -> (popped: Option<T>)
        ensures
            (popped, final(self)@) == popped_front(old(self)@),
    {
        proof {
            use_type_invariant(&*self);
        }
        let old_head = match self.head {
            None => {
                return None;
            },
            Some(slot) => slot,
        };
        let mut taken = List::new();
        core::mem::swap(self, &mut taken);
        let List { mut nodes, head: _, mut tail, order } = taken;
        let ghost before = nodes@;
        assert(Self::linked(before, order@, 0));
        let node = nodes.remove(old_head);
        if node.next.is_none() {
            tail = None;
        }
        proof {
            Self::lemma_unlink_front(before, taken.head, taken.tail, order@);
        }
        *self = List { nodes, head: node.next, tail, order: Ghost(order@.drop_first()) };
        Some(node.elem)
    }

    /// A new node in a fresh slot `at`, linked in behind the last node of
    /// the chain, makes a chain that ends with it.
    proof fn lemma_link_back(
        before: Map<usize, Node<T>>,
        after: Map<usize, Node<T>>,
        head: Option<usize>,
        tail: Option<usize>,
        order: Seq<usize>,
        at: usize,
        elem: T,
    )
        requires
            Self::chained(before, head, tail, order),
            !before.contains_key(at),
            after =~= ({
                let last = before.insert(at, Node { elem, next: None });
                match tail {
                    None => last,
                    Some(second) => last.insert(second, Node { next: Some(at), ..before[second] }),
                }
            }),
        ensures
            Self::chained(
                after,
                if head is None {
                    Some(at)
                } else {
                    head
                },
                Some(at),
                order.push(at),
            ),
            Self::elems(after, order.push(at)) == Self::elems(before, order).push(elem),
    {
        let grown = order.push(at);
        if order.len() > 0 {
            assert(Self::linked(before, order, order.len() - 1));
        }
        assert forall|i: int| 0 <= i < order.len() implies order[i] != at by {
            assert(Self::linked(before, order, i));
        }
        assert forall|i: int| 0 <= i < grown.len() implies #[trigger] Self::linked(
            after,
            grown,
            i,
        ) by {
            if i < order.len() {
                assert(Self::linked(before, order, i));
            }
        }
        assert forall|slot: usize| #[trigger] after.contains_key(slot) implies exists|i: int|
            0 <= i < grown.len() && #[trigger] grown[i] == slot by {
            if slot == at {
                assert(grown[order.len() as int] == slot);
            } else {
                assert(before.contains_key(slot));
                let i = choose|i: int| 0 <= i < order.len() && #[trigger] order[i] == slot;
                assert(grown[i] == slot);
            }
        }
        assert forall|i: int| 0 <= i < grown.len() implies Self::elems(after, grown)[i]
            == Self::elems(before, order).push(elem)[i] by {
            if i < order.len() {
                assert(Self::linked(before, order, i));
            }
        }
        assert(Self::elems(after, grown) =~= Self::elems(before, order).push(elem));
    }

    /// With its first node taken out, the chain is the chain of the nodes
    /// after the first.
    proof fn lemma_unlink_front(
        before: Map<usize, Node<T>>,
        head: Option<usize>,
        tail: Option<usize>,
        order: Seq<usize>,
    )
        requires
            Self::chained(before, head, tail, order),
            order.len() > 0,
        ensures
            Self::chained(
                before.remove(order[0]),
                before[order[0]].next,
                if before[order[0]].next is None {
                    None
                } else {
                    tail
                },
                order.drop_first(),
            ),
            Self::elems(before.remove(order[0]), order.drop_first()) == Self::elems(
                before,
                order,
            ).drop_first(),
    {
        let after = before.remove(order[0]);
        let shrunk = order.drop_first();
        assert(Self::linked(before, order, 0));
        assert forall|i: int| 0 <= i < shrunk.len() implies #[trigger] Self::linked(
            after,
            shrunk,
            i,
        ) by {
            assert(Self::linked(before, order, i + 1));
        }
        assert forall|slot: usize| #[trigger] after.contains_key(slot) implies exists|i: int|
            0 <= i < shrunk.len() && #[trigger] shrunk[i] == slot by {
            let i = choose|i: int| 0 <= i < order.len() && #[trigger] order[i] == slot;
            assert(shrunk[i - 1] == slot);
        }
        assert forall|i: int| 0 <= i < shrunk.len() implies Self::elems(after, shrunk)[i]
            == Self::elems(before, order).drop_first()[i] by {
            assert(Self::linked(before, order, i + 1));
        }
        assert(Self::elems(after, shrunk) =~= Self::elems(before, order).drop_first());
    }
}

} // verus!
