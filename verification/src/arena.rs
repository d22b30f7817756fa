//! Index-addressed storage for the nodes of a linked structure.
//!
//! A node lives in a slot and is named by the slot's number, so a link
//! between two nodes is a plain number and the arena is the one owner of
//! every node. Slots that were given back are handed out again before the
//! arena grows.

use vstd::prelude::*;

verus! {

/// Slots that hold a node each or are vacant.
///
/// Its view maps the number of every occupied slot to the node in it.
pub(crate) struct Arena<N> {
    slots: Vec<Option<N>>,
    /// The vacant slots.
    free: Vec<usize>,
}

impl<N> Arena<N> {
    /// Every vacant slot is listed in `free` once, and no other slot is.
    pub(crate) closed spec fn wf(&self) -> bool {
        &&& forall|k: int|
            0 <= k < self.free@.len() ==> (#[trigger] self.free@[k]) < self.slots@.len()
                && self.slots@[self.free@[k] as int] is None
        &&& forall|k: int, l: int| 0 <= k < l < self.free@.len() ==> self.free@[k] != self.free@[l]
        &&& forall|at: int|
            0 <= at < self.slots@.len() && (#[trigger] self.slots@[at]) is None ==> exists|k: int|
                0 <= k < self.free@.len() && #[trigger] self.free@[k] == at
    }

    /// The nodes by the numbers of their slots.
    pub(crate) closed spec fn view(&self) -> Map<usize, N> {
        Map::new(
            |at: usize| at < self.slots@.len() && self.slots@[at as int] is Some,
            |at: usize| self.slots@[at as int].unwrap(),
        )
    }

    /// An arena without slots.
    pub(crate) fn new() -> (arena: Self)
        ensures
            arena.wf(),
            arena@ == Map::<usize, N>::empty(),
    {
        let arena = Arena { slots: Vec::new(), free: Vec::new() };
        assert(arena@ =~= Map::<usize, N>::empty());
        arena
    }

    /// Puts `node` into a vacant slot and returns the slot's number.
    pub(crate) fn insert(&mut self, node: N) -> (at: usize)
        requires
            old(self).wf(),
        ensures
            final(self).wf(),
            !old(self)@.contains_key(at),
            final(self)@ == old(self)@.insert(at, node),
    {
        let ghost spare = self.free@;
        let at: usize = match self.free.pop() {
            Some(slot) => {
                self.slots[slot] = Some(node);
                slot
            },
            None => {
                self.slots.push(Some(node));
                self.slots.len() - 1
            },
        };
        proof {
            assert forall|other: int|
                0 <= other < self.slots@.len() && (#[trigger] self.slots@[other])
                    is None implies exists|k: int|
                0 <= k < self.free@.len() && #[trigger] self.free@[k] == other by {
                assert(old(self).slots@[other] is None);
                let k = choose|k: int| 0 <= k < spare.len() && #[trigger] spare[k] == other;
                assert(self.free@[k] == other);
            }
            assert(final(self)@ =~= old(self)@.insert(at, node));
        }
        at
    }

    /// Takes the node out of slot `at`, which becomes vacant.
    pub(crate) fn remove(&mut self, at: usize) -> (node: N)
        requires
            old(self).wf(),
            old(self)@.contains_key(at),
        ensures
            final(self).wf(),
            node == old(self)@[at],
            final(self)@ == old(self)@.remove(at),
    {
        let ghost spare = self.free@;
        let node = self.slots[at].take().unwrap();
        self.free.push(at);
        proof {
            assert forall|other: int|
                0 <= other < self.slots@.len() && (#[trigger] self.slots@[other])
                    is None implies exists|k: int|
                0 <= k < self.free@.len() && #[trigger] self.free@[k] == other by {
                if other == at {
                    assert(self.free@[spare.len() as int] == other);
                } else {
                    assert(old(self).slots@[other] is None);
                    let k = choose|k: int| 0 <= k < spare.len() && #[trigger] spare[k] == other;
                    assert(self.free@[k] == other);
                }
            }
            assert(final(self)@ =~= old(self)@.remove(at));
        }
        node
    }

    /// A reference to the node in slot `at`.
    pub(crate) fn get(&self, at: usize) -> (node: &N)
        requires
            self@.contains_key(at),
        ensures
            *node == self@[at],
    {
        self.slots[at].as_ref().unwrap()
    }

    /// A mutable reference to the node in slot `at`.
    pub(crate) fn get_mut(&mut self, at: usize) -> (node: &mut N)
        requires
            old(self).wf(),
            old(self)@.contains_key(at),
        ensures
            final(self).wf(),
            *node == old(self)@[at],
            final(self)@ == old(self)@.insert(at, *final(node)),
    {
        proof {
            assert forall|after: Self, node: N|
                after.slots@ == self.slots@.update(at as int, Some(node)) && after.free@
                    == self.free@ implies #[trigger] after.wf() && after@ == (#[trigger] self@.insert(
                at,
                node,
            )) by {
                Self::lemma_rewrite(*self, after, at, node);
            }
        }
        self.slots[at].as_mut().unwrap()
    }

    /// Writing a new node into an occupied slot keeps the arena well formed.
    proof fn lemma_rewrite(before: Self, after: Self, at: usize, node: N)
        requires
            before.wf(),
            before@.contains_key(at),
            after.slots@ == before.slots@.update(at as int, Some(node)),
            after.free@ == before.free@,
        ensures
            after.wf(),
            after@ == before@.insert(at, node),
    {
        assert forall|other: int|
            0 <= other < after.slots@.len() && (#[trigger] after.slots@[other])
                is None implies exists|k: int|
            0 <= k < after.free@.len() && #[trigger] after.free@[k] == other by {
            assert(before.slots@[other] is None);
        }
        assert(after@ =~= before@.insert(at, node));
    }
}

} // verus!
