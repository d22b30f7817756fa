//! A queue as a singly linked chain of owned nodes that keeps a mutable
//! reference to its own last node.
//!
//! The reference borrows the queue for as long as the queue lives, so the
//! first `push` is the last call that compiles: the queue can take one
//! element and never be read. The contracts say what the operations do all
//! the same, and what the queue holds when it is let go.

use crate::model::popped_front;
use vstd::prelude::*;

verus! {

/// A queue with a reference to its own last node; its view is the sequence
/// of the elements in the chain that hangs from its head.
pub struct List<'a, T> {
    head: Option<Box<Node<T>>>,
    tail: Option<&'a mut Node<T>>,
}

/// One element and the chain of the elements after it.
///
/// Its view is its element followed by the elements after it.
pub struct Node<T> {
    elem: T,
    next: Option<Box<Node<T>>>,
}

/// The elements of the chain that hangs from `link`.
spec fn chain<T>(link: Option<Box<Node<T>>>) -> Seq<T>
    decreases link,
{
    match link {
        None => Seq::empty(),
        Some(node) => seq![node.elem] + chain(node.next),
    }
}

impl<T> Node<T> {
    /// The element of this node followed by the elements after it.
    pub closed spec fn view(&self) -> Seq<T> {
        seq![self.elem] + chain(self.next)
    }

    /// A node on the heap that holds `elem` and has no node after it.
    fn boxed(elem: T) -> (node: Box<Self>)
        ensures
            node@ == seq![elem],
            node.next is None,
    {
        Box::new(Node { elem, next: None })
    }
}

impl<'a, T> List<'a, T> {
    /// The elements in the chain from the head, first to last.
    pub closed spec fn view(&self) -> Seq<T> {
        chain(self.head)
    }

    /// The reference to the last node; `None` while no node was pushed.
    pub closed spec fn last(&self) -> Option<&'a mut Node<T>> {
        self.tail
    }

    /// Once the queue is no longer used, its last node holds what it held
    /// last.
    pub proof fn lemma_abandoned(self)
        requires
            has_resolved(self),
        ensures
            self.last() matches Some(node) ==> final(node)@ == node@,
    {
    }

    /// An empty queue.
    pub fn new() -> (list: Self)
        ensures
            list@ == Seq::<T>::empty(),
            list.last() is None,
    {
        List { head: None, tail: None }
    }

    /// Hangs a node with `elem` behind the last node and keeps a reference
    /// to it.
    pub fn push(&'a mut self, elem: T)
        ensures
            final(self).last() matches Some(node) && node@ == seq![elem],
            old(self).last() is None ==> final(self)@ == final(final(self).last().unwrap())@,
            old(self).last() matches Some(prev) ==> final(self)@ == old(self)@ && final(prev)@
                == prev@.take(1) + final(final(self).last().unwrap())@,
    {
        let new_tail = Node::boxed(elem);
        let new_tail = match self.tail.take() {
            None => {
                self.head = Some(new_tail);
                match &mut self.head {
                    None => None,
                    Some(node) => Some(&mut **node),
                }
            },
            Some(old_tail) => {
                old_tail.next = Some(new_tail);
                match &mut old_tail.next {
                    None => None,
                    Some(node) => Some(&mut **node),
                }
            },
        };
        self.tail = new_tail;
    }

    /// Removes the first element of the chain and returns it; `None` if
    /// there is none. With the last element the reference to the last node
    /// goes too.
    pub fn pop(&mut self) -> (popped: Option<T>)
        ensures
            (popped, final(self)@) == popped_front(old(self)@),
            final(self).last() == (if old(self)@.len() == 1 {
                None
            } else {
                old(self).last()
            }),
    {
        match self.head.take() {
            None => None,
            Some(head) => {
                let Node { elem, next } = *head;
                assert(old(self)@.drop_first() =~= chain(next));
                self.head = next;
                if self.head.is_none() {
                    self.tail = None;
                }
                Some(elem)
            },
        }
    }
}

} // verus!
