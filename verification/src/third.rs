//! A persistent list: a chain of reference-counted nodes that any number of
//! lists may share from some node on. A list is never changed; `prepend` and
//! `tail` make new lists that share the nodes of the old one.

use crate::model::{peeked_front, popped_front, pushed_front};
use std::rc::Rc;
use vstd::prelude::*;

verus! {

/// A persistent list; its view is the sequence of its elements, first to
/// last.
pub struct List<T> {
    head: Option<Rc<Node<T>>>,
}

/// One element and the shared chain of the elements after it.
struct Node<T> {
    elem: T,
    next: Option<Rc<Node<T>>>,
}

/// An iterator over references to the elements, first to last.
///
/// Its view is the sequence of the elements it has yet to yield.
pub struct Iter<'a, T> {
    next: Option<&'a Node<T>>,
}

/// The elements of the chain that hangs from `link`.
spec fn chain<T>(link: Option<Rc<Node<T>>>) -> Seq<T>
    decreases link,
{
    match link {
        None => Seq::empty(),
        Some(node) => seq![node.elem] + chain(node.next),
    }
}

/// `Rc::clone` on a link of the chain: one more owner of the node that `link`
/// owns. The node is not copied, so the new link leads to the very chain
/// that the old one leads to.
#[verifier::external_body]
fn share<T>(link: &Rc<Node<T>>) -> (shared: Rc<Node<T>>)
    ensures
        shared == *link,
{
    Rc::clone(link)
}

/// One more owner of the chain that hangs from `link`, if there is one.
fn share_chain<T>(link: &Option<Rc<Node<T>>>) -> (shared: Option<Rc<Node<T>>>)
    ensures
        shared == *link,
{
    match link {
        None => None,
        Some(node) => Some(share(node)),
    }
}

impl<T> List<T> {
    /// The elements, first to last.
    pub closed spec fn view(&self) -> Seq<T> {
        chain(self.head)
    }

    /// An empty list.
    pub fn new() -> (list: Self)
        ensures
            list@ == Seq::<T>::empty(),
    {
        List { head: None }
    }

    /// A list of `elem` followed by the elements of this list, which it
    /// shares.
    pub fn prepend(&self, elem: T) -> (list: List<T>)
        ensures
            list@ == pushed_front(self@, elem),
    {
        List { head: Some(Rc::new(Node { elem, next: share_chain(&self.head) })) }
    }

    /// A list of the elements after the first, which it shares; the empty
    /// list if this list is empty.
    pub fn tail(&self) -> (list: List<T>)
        ensures
            list@ == popped_front(self@).1,
    {
        match &self.head {
            None => List { head: None },
            Some(node) => {
                assert(self@.drop_first() =~= chain(node.next));
                List { head: share_chain(&node.next) }
            },
        }
    }

    /// A reference to the first element; `None` if there is none.
    pub fn head(&self) -> (first: Option<&T>)
        ensures
            first == match peeked_front(self@) {
                Some(elem) => Some(&elem),
                None => None,
            },
    {
        match &self.head {
            None => None,
            Some(node) => Some(&node.elem),
        }
    }

    /// An iterator over references to the elements.
    pub fn iter(&self) -> (iter: Iter<'_, T>)
        ensures
            iter@ == self@,
    {
        Iter {
            next: match &self.head {
                None => None,
                Some(node) => Some(&**node),
            },
        }
    }

    /// Lets go of the chain and leaves the list empty.
    ///
    /// The nodes that no other list shares are freed one after the other, so
    /// that the depth of the call stack does not grow with their number; the
    /// walk ends at the first node that another list still owns.
    pub fn clear(&mut self)
        ensures
            final(self)@ == Seq::<T>::empty(),
    {
        let mut rest = self.head.take();
        loop
            decreases chain(rest).len(),
        {
            match rest {
                None => {
                    break ;
                },
                Some(link) => {
                    match Rc::try_unwrap(link) {
                        Ok(node) => {
                            let Node { elem: _, next } = node;
                            rest = next;
                        },
                        Err(_) => {
                            break ;
                        },
                    }
                },
            }
        }
    }
}

impl<'a, T> Iter<'a, T> {
    /// The elements that are left, first to last.
    pub closed spec fn view(&self) -> Seq<T> {
        match self.next {
            None => Seq::empty(),
            Some(node) => seq![node.elem] + chain(node.next),
        }
    }

    /// Yields a reference to the next element; `None` once none is left.
    pub fn next(&mut self) -> (item: Option<&'a T>)
        ensures
            item == match peeked_front(old(self)@) {
                Some(elem) => Some(&elem),
                None => None,
            },
            final(self)@ == popped_front(old(self)@).1,
    {
        match self.next {
            None => None,
            Some(node) => {
                self.next = match &node.next {
                    None => None,
                    Some(after) => Some(&**after),
                };
                assert(old(self)@.drop_first() =~= chain(node.next));
                Some(&node.elem)
            },
        }
    }
}

} // verus!
