//! A stack of `i32` as a singly linked chain in which every node is owned
//! by the link before it.

use crate::model::{peeked_front, popped_front, pushed_front};
use vstd::prelude::*;

verus! {

/// A stack of `i32`; its view is the sequence of its elements, top first.
pub struct List {
    head: Link,
}

/// What follows in the chain: nothing, or a node that owns the rest.
pub enum Link {
    Empty,
    More(Box<Node>),
}

/// One element and the link to the elements below it.
pub struct Node {
    value: i32,
    next: Link,
}

impl Link {
    /// The elements of the chain that starts at this link.
    pub closed spec fn view(&self) -> Seq<i32>
        decreases self,
    {
        match self {
            Link::Empty => Seq::empty(),
            Link::More(node) => seq![node.value] + node.next.view(),
        }
    }
}

impl List {
    /// The elements, top first.
    pub closed spec fn view(&self) -> Seq<i32> {
        self.head@
    }

    /// An empty stack.
    pub fn new() -> (list: Self)
        ensures
            list@ == Seq::<i32>::empty(),
    {
        List { head: Link::Empty }
    }

    /// Puts `value` on top.
    pub fn push(&mut self, value: i32)
        ensures
            final(self)@ == pushed_front(old(self)@, value),
    {
        let mut next = Link::Empty;
        core::mem::swap(&mut next, &mut self.head);
        self.head = Link::More(Box::new(Node { value, next }));
    }

    /// Takes the top element off and returns it; `None` if there is none.
    pub fn pop(&mut self) -> (popped: Option<i32>)
        ensures
            (popped, final(self)@) == popped_front(old(self)@),
    {
        let mut head = Link::Empty;
        core::mem::swap(&mut head, &mut self.head);
        match head {
            Link::Empty => None,
            Link::More(node) => {
                let Node { value, next } = *node;
                assert(old(self)@.drop_first() =~= next@);
                self.head = next;
                Some(value)
            },
        }
    }

    /// The top element, which stays where it is; `None` if there is none.
    pub fn peek(&mut self) -> (top: Option<i32>)
        ensures
            top == peeked_front(old(self)@),
            final(self)@ == old(self)@,
    {
        match &self.head {
            Link::Empty => None,
            Link::More(node) => Some(node.value),
        }
    }
}

impl Drop for List {
    /// Frees the nodes one after the other, so that the depth of the call
    /// stack does not grow with the length of the chain.
    fn drop(&mut self)
        opens_invariants none
        no_unwind
    {
        let mut rest = Link::Empty;
        core::mem::swap(&mut rest, &mut self.head);
        loop
            decreases rest@.len(),
        {
            match rest {
                Link::Empty => {
                    break ;
                },
                Link::More(node) => {
                    let Node { value: _, next } = *node;
                    rest = next;
                },
            }
        }
    }
}

} // verus!
