//! A generic stack as a singly linked chain of owned nodes, with three ways
//! to walk it: by value, by shared reference and by mutable reference.

use crate::model::{peeked_front, popped_front, pushed_front};
use vstd::prelude::*;

verus! {

/// A stack; its view is the sequence of its elements, top first.
pub struct List<T> {
    head: Option<Box<Node<T>>>,
}

/// One element and the chain of the elements below it.
///
/// Its view is its element followed by the elements below it.
pub struct Node<T> {
    elem: T,
    next: Option<Box<Node<T>>>,
}

/// An iterator that takes the elements off the stack, top first.
///
/// Its view is the sequence of the elements it has yet to yield.
pub struct IntoIter<T>(List<T>);

/// An iterator over references to the elements, top first.
///
/// Its view is the sequence of the elements it has yet to yield.
pub struct Iter<'a, T> {
    next: Option<&'a Node<T>>,
}

/// An iterator over mutable references to the elements, top first.
///
/// Its view is the sequence of the elements it has yet to yield, as they are
/// now.
pub struct IterMut<'a, T> {
    next: Option<&'a mut Node<T>>,
}

/// The elements of the chain that hangs from `link`.
spec fn chain<T>(link: Option<Box<Node<T>>>) -> Seq<T>
    decreases link,
{
    match link {
        None => Seq::empty(),
        Some(node) => seq![node.elem] + chain(node.next),
    }
}

impl<T> Node<T> {
    /// The element of this node followed by the elements below it.
    pub closed spec fn view(&self) -> Seq<T> {
        seq![self.elem] + chain(self.next)
    }
}

impl<T> List<T> {
    /// The elements, top first.
    pub closed spec fn view(&self) -> Seq<T> {
        chain(self.head)
    }

    /// An empty stack.
    pub fn new() -> (list: Self)
        ensures
            list@ == Seq::<T>::empty(),
    {
        List { head: None }
    }

    /// Puts `elem` on top.
    pub fn push(&mut self, elem: T)
        ensures
            final(self)@ == pushed_front(old(self)@, elem),
    {
        let next = self.head.take();
        self.head = Some(Box::new(Node { elem, next }));
    }

    /// Takes the top element off and returns it; `None` if there is none.
    pub fn pop(&mut self) -> (popped: Option<T>)
        ensures
            (popped, final(self)@) == popped_front(old(self)@),
    {
        match self.head.take() {
            None => None,
            Some(node) => {
                let Node { elem, next } = *node;
                assert(old(self)@.drop_first() =~= chain(next));
                self.head = next;
                Some(elem)
            },
        }
    }

    /// A reference to the top element; `None` if there is none.
    pub fn peek(&mut self) -> (top: Option<&T>)
        ensures
            top == match peeked_front(old(self)@) {
                Some(elem) => Some(&elem),
                None => None,
            },
            final(self)@ == old(self)@,
    {
        match &self.head {
            None => None,
            Some(node) => Some(&node.elem),
        }
    }

    /// A mutable reference to the top element; `None` if there is none.
    ///
    /// What is written through the reference becomes the top element;
    /// the elements below it stay as they are.
    pub fn peek_mut(&mut self) -> (top: Option<&mut T>)
        ensures
            old(self)@.len() == 0 ==> top is None && final(self)@ == old(self)@,
            old(self)@.len() > 0 ==> top is Some && *top.unwrap() == old(self)@.first()
                && final(self)@ == old(self)@.update(0, *final(top.unwrap())),
    {
        match &mut self.head {
            None => None,
            Some(node) => Some(&mut node.elem),
        }
    }

    /// Turns the stack into an iterator that takes its elements off.
    pub fn into_iter(self) -> (iter: IntoIter<T>)
        ensures
            iter@ == self@,
    {
        IntoIter(self)
    }

    /// An iterator over references to the elements.
    pub fn iter<'a>(&'a self) -> (iter: Iter<'a, T>)
        ensures
            iter@ == self@,
    {
        Iter {
            next: match &self.head {
                None => None,
                Some(node) => Some(&**node),
            },
        }
    }

    /// An iterator over mutable references to the elements.
    ///
    /// When the iterator and the references it handed out are gone, the
    /// stack holds what was last written through them.
    pub fn iter_mut(&mut self) -> (iter: IterMut<'_, T>)
        ensures
            iter@ == old(self)@,
            iter.cursor() is None <==> iter@.len() == 0,
            iter.cursor() is None ==> final(self)@ == Seq::<T>::empty(),
            iter.cursor() matches Some(node) ==> final(self)@ == final(node)@,
    {
        IterMut {
            next: match &mut self.head {
                None => None,
                Some(node) => Some(&mut **node),
            },
        }
    }
}

impl<T> Drop for List<T> {
    /// Frees the nodes one after the other, so that the depth of the call
    /// stack does not grow with the length of the chain.
    fn drop(&mut self)
        opens_invariants none
        no_unwind
    {
        let mut rest: Option<Box<Node<T>>> = None;
        core::mem::swap(&mut rest, &mut self.head);
        loop
            decreases chain(rest).len(),
        {
            match rest {
                None => {
                    break ;
                },
                Some(node) => {
                    let Node { elem: _, next } = *node;
                    rest = next;
                },
            }
        }
    }
}

impl<T> IntoIter<T> {
    /// The elements that are left, top first.
    pub closed spec fn view(&self) -> Seq<T> {
        self.0@
    }

    /// Yields the top element of what is left; `None` once nothing is.
    pub fn next(&mut self) -> (item: Option<T>)
        ensures
            (item, final(self)@) == popped_front(old(self)@),
    {
        self.0.pop()
    }
}

impl<'a, T> Iter<'a, T> {
    /// The elements that are left, top first.
    pub closed spec fn view(&self) -> Seq<T> {
        match self.next {
            None => Seq::empty(),
            Some(node) => node@,
        }
    }

    /// Yields a reference to the next element; `None` once none is left.
    pub fn next(&mut self) -> (item: Option<&'a T>)
        ensures
            item == match peeked_front(old(self)@) {
                Some(elem) => Some(&elem),
                None => None,
            },
            final(self)@ == popped_front(old(self)@).1,
    {
        match self.next {
            None => None,
            Some(node) => {
                self.next = match &node.next {
                    None => None,
                    Some(below) => Some(&**below),
                };
                assert(old(self)@.drop_first() =~= chain(node.next));
                Some(&node.elem)
            },
        }
    }
}

impl<'a, T> IterMut<'a, T> {
    /// The node that the iterator stands at; `None` once none is left.
    pub closed spec fn cursor(&self) -> Option<&'a mut Node<T>> {
        self.next
    }

    /// The elements that are left, top first, as they are now.
    pub closed spec fn view(&self) -> Seq<T> {
        match self.next {
            None => Seq::empty(),
            Some(node) => node@,
        }
    }

    /// Once the iterator is no longer used, the chain from the node that it
    /// stands at holds what the iterator has left.
    pub proof fn lemma_abandoned(self)
        requires
            has_resolved(self),
        ensures
            self.cursor() matches Some(node) ==> final(node)@ == self@,
    {
    }

    /// Yields a mutable reference to the next element; `None` once none is
    /// left.
    ///
    /// The chain from the node that the iterator stood at will hold what is
    /// written through the reference, followed by what the chain from the
    /// node that the iterator stands at now will hold.
    pub fn next(&mut self) -> (item: Option<&'a mut T>)
        ensures
            old(self)@.len() == 0 ==> item is None && final(self)@ == old(self)@,
            old(self)@.len() > 0 ==> item is Some && *item.unwrap() == old(self)@.first()
                && final(self)@ == old(self)@.drop_first(),
            final(self).cursor() is None <==> final(self)@.len() == 0,
            old(self).cursor() matches Some(node) ==> item is Some && final(node)@ == seq![
                *final(item.unwrap()),
            ] + (match final(self).cursor() {
                Some(below) => final(below)@,
                None => Seq::empty(),
            }),
    {
        match self.next.take() {
            None => None,
            Some(node) => {
                assert(old(self)@.drop_first() =~= chain(node.next));
                self.next = match &mut node.next {
                    None => None,
                    Some(below) => Some(&mut **below),
                };
                Some(&mut node.elem)
            },
        }
    }
}

} // verus!
