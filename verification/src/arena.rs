//! A slot arena with generation-checked handles.
//!
//! The arena owns every value stored in it and hands out `NodeId` handles.
//! A handle owns nothing: it resolves to its value for as long as the value
//! stays in the arena and to nothing afterwards. Freed slots are reused, but
//! never under a handle that was handed out before, so a stale handle can
//! never come to denote a different value: each slot counts how often it has
//! been freed, a handle carries the count that it was made at, and a slot
//! whose count is used up is not filled again.

use vstd::prelude::*;

verus! {

/// A handle to a value stored in an [`Arena`].
#[derive(Clone, Copy, PartialEq, Eq, Structural, Debug)]
pub struct NodeId {
    index: usize,
    generation: u64,
}

/// One place in the arena: empty, or holding a value.
struct Slot<T> {
    /// How often this slot has been freed.
    generation: u64,
    value: Option<T>,
}

/// Owns values of type `T` and resolves handles to them.
pub struct Arena<T> {
    slots: Vec<Slot<T>>,
    /// Indices of the empty slots that may be filled again.
    free: Vec<usize>,
}

impl<T> View for Arena<T> {
    type V = Map<NodeId, T>;

    /// The values in the arena, keyed by the handles that resolve to them.
    closed spec fn view(&self) -> Map<NodeId, T> {
        Map::new(
            |id: NodeId| self.occupied(id),
            |id: NodeId| self.slots@[id.index as int].value->0,
        )
    }
}

impl<T> Arena<T> {
    /// `id` names a slot that holds a value and was last freed as often as
    /// `id` says.
    spec fn occupied(&self, id: NodeId) -> bool {
        &&& id.index < self.slots@.len()
        &&& self.slots@[id.index as int].generation == id.generation
        &&& self.slots@[id.index as int].value is Some
    }

    /// Slot `i` is empty and its count is not used up.
    spec fn reusable(&self, i: usize) -> bool {
        &&& i < self.slots@.len()
        &&& self.slots@[i as int].value is None
        &&& self.slots@[i as int].generation < u64::MAX
    }

    /// The handles whose values have been removed. They resolve to nothing,
    /// now and after any later operation.
    pub closed spec fn expired(&self) -> Set<NodeId> {
        Set::new(
            |id: NodeId|
                {
                    &&& id.index < self.slots@.len()
                    &&& id.generation < self.slots@[id.index as int].generation
                },
        )
    }

    /// The arena is well formed: the free list names each reusable slot at
    /// most once and nothing else, no occupied slot's count is used up, and
    /// the live handles and the free slots together are no more than the
    /// slots.
    pub closed spec fn wf(&self) -> bool {
        &&& forall|k: int| 0 <= k < self.free@.len() ==> self.reusable(#[trigger] self.free@[k])
        &&& self.free@.no_duplicates()
        &&& forall|i: int|
            0 <= i < self.slots@.len() && (#[trigger] self.slots@[i]).value is Some
                ==> self.slots@[i].generation < u64::MAX
        &&& self@.dom().finite()
        &&& self@.dom().len() + self.free@.len() <= self.slots@.len()
    }

    /// An expired handle is never live, and the number of live handles fits
    /// in a `usize`.
    pub proof fn lemma_handles(&self)
        requires
            self.wf(),
        ensures
            self@.dom().finite(),
            self@.dom().len() <= usize::MAX,
            self@.dom().disjoint(self.expired()),
    {
        assert(self.slots.len() == self.slots@.len());
    }

    /// An arena that holds nothing and has handed out no handle.
    pub fn new() -> (arena: Self)
        ensures
            arena.wf(),
            arena@ == Map::<NodeId, T>::empty(),
            arena.expired() == Set::<NodeId>::empty(),
    {
        let arena = Arena { slots: Vec::new(), free: Vec::new() };
        assert(arena@ =~= Map::<NodeId, T>::empty());
        arena
    }

    /// Stores `value` and returns a handle that was never handed out before.
    pub fn insert(&mut self, value: T) -> (id: NodeId)
        requires
            old(self).wf(),
        ensures
            final(self).wf(),
            !old(self)@.dom().contains(id),
            !old(self).expired().contains(id),
            final(self)@ == old(self)@.insert(id, value),
            final(self).expired() == old(self).expired(),
    {
        let id = match self.free.pop() {
            Some(i) => {
                self.slots[i].value = Some(value);
                NodeId { index: i, generation: self.slots[i].generation }
            },
            None => {
                let i = self.slots.len();
                self.slots.push(Slot { generation: 0, value: Some(value) });
                NodeId { index: i, generation: 0 }
            },
        };
        assert(self@ =~= old(self)@.insert(id, value));
        id
    }

    /// Takes the value of `id` out of the arena, if `id` is live, and expires
    /// the handle.
    pub fn remove(&mut self, id: NodeId) -> (value: Option<T>)
        requires
            old(self).wf(),
        ensures
            final(self).wf(),
            value == (if old(self)@.dom().contains(id) {
                Some(old(self)@[id])
            } else {
                None
            }),
            final(self)@ == old(self)@.remove(id),
            final(self).expired() == (if old(self)@.dom().contains(id) {
                old(self).expired().insert(id)
            } else {
                old(self).expired()
            }),
    {
        if id.index < self.slots.len() && self.slots[id.index].generation == id.generation
            && self.slots[id.index].value.is_some() {
            let value = self.slots[id.index].value.take();
            let generation = id.generation + 1;
            self.slots[id.index].generation = generation;
            if generation < u64::MAX {
                self.free.push(id.index);
            }
            assert(self@ =~= old(self)@.remove(id));
            value
        } else {
            None
        }
    }

    /// Resolves a handle: the value of `id` if it is live, nothing otherwise.
    pub fn get(&self, id: NodeId) -> (value: Option<&T>)
        ensures
            value == (if self@.dom().contains(id) {
                Some(&self@[id])
            } else {
                None
            }),
    {
        if id.index < self.slots.len() && self.slots[id.index].generation == id.generation {
            self.slots[id.index].value.as_ref()
        } else {
            None
        }
    }

    /// Mutable access to the value of `id`, if `id` is live.
    pub fn get_mut(&mut self, id: NodeId) -> (value: Option<&mut T>)
        requires
            old(self).wf(),
        ensures
            final(self).wf(),
            final(self).expired() == old(self).expired(),
            (match value {
                Some(value) => {
                    &&& old(self)@.dom().contains(id)
                    &&& *value == old(self)@[id]
                    &&& final(self)@ == old(self)@.insert(id, *final(value))
                },
                None => !old(self)@.dom().contains(id) && final(self)@ == old(self)@,
            }),
    {
        if id.index < self.slots.len() && self.slots[id.index].generation == id.generation {
            let value = self.slots[id.index].value.as_mut();
            proof {
                assert(after_borrow(*self)@.dom() =~= old(self)@.dom());
            }
            value
        } else {
            None
        }
    }
}

} // verus!
