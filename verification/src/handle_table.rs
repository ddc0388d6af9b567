//! The handle table: which slot stands for which entity, and back.

use slab::Slab;
use std::collections::HashMap;
use vstd::prelude::*;
use crate::geometry::Aabb;
use crate::slab_table::{slab_entries, slab_get, slab_insert, slab_new, slab_remove, slab_set};

verus! {

/// An entity as the surrounding world names it.
pub type EntityId = u128;

/// What a slot holds: the entity it stands for and that entity's current box.
#[derive(Clone, Copy, Debug, PartialEq, Eq, Structural)]
pub struct Leaf {
    pub entity: EntityId,
    pub aabb: Aabb,
}

/// A two-way table between entities and the slots that stand for them. Each
/// slot also holds the current box of its entity.
pub struct HandleTable {
    leaves: Slab<Leaf>,
    by_entity: HashMap<EntityId, usize>,
}

impl HandleTable {
    /// The live slots, each with the entity and box it holds.
    pub closed spec fn entries(self) -> Map<usize, Leaf> {
        slab_entries(self.leaves)
    }

    /// The tracked entities, each with its slot.
    pub closed spec fn slots(self) -> Map<EntityId, usize> {
        self.by_entity@
    }

    /// The two directions are inverse to each other.
    pub open spec fn wf(self) -> bool {
        &&& forall|e: EntityId| #[trigger]
            self.slots().contains_key(e) ==> self.entries().contains_key(self.slots()[e])
                && self.entries()[self.slots()[e]].entity == e
        &&& forall|s: usize| #[trigger]
            self.entries().contains_key(s) ==> self.slots().contains_key(self.entries()[s].entity)
                && self.slots()[self.entries()[s].entity] == s
    }

    /// The box that the accessor of a refit reads for `slot`: the stored box
    /// of a live slot, the empty box of any other.
    pub open spec fn box_at(self, slot: usize) -> Aabb {
        if self.entries().contains_key(slot) {
            self.entries()[slot].aabb
        } else {
            Aabb::empty()
        }
    }

    /// A table that tracks nothing.
    pub fn new() -> (t: HandleTable)
        ensures
            t.wf(),
            t.entries() == Map::<usize, Leaf>::empty(),
            t.slots() == Map::<EntityId, usize>::empty(),
    {
        HandleTable { leaves: slab_new(), by_entity: HashMap::new() }
    }

    /// The slot of `entity`, if it is tracked.
    pub fn slot_of(&self, entity: EntityId) -> (r: Option<usize>)
        ensures
            r == (if self.slots().contains_key(entity) {
                Some(self.slots()[entity])
            } else {
                None
            }),
    {
        match self.by_entity.get(&entity) {
            Some(slot) => Some(*slot),
            None => None,
        }
    }

    /// Gives `entity` a slot. A tracked entity keeps the slot it has, and the
    /// table stays as it is; an unknown one gets a vacant slot with an empty
    /// box.
    pub fn insert(&mut self, entity: EntityId) -> (slot: usize)
        requires
            old(self).wf(),
        ensures
            final(self).wf(),
            old(self).slots().contains_key(entity) ==> slot == old(self).slots()[entity]
                && *final(self) == *old(self),
            !old(self).slots().contains_key(entity) ==> {
                &&& !old(self).entries().contains_key(slot)
                &&& final(self).entries() == old(self).entries().insert(
                    slot,
                    Leaf { entity, aabb: Aabb::empty() },
                )
                &&& final(self).slots() == old(self).slots().insert(entity, slot)
            },
    {
        match self.slot_of(entity) {
            Some(slot) => slot,
            None => {
                let fresh = Leaf { entity, aabb: Aabb::new_invalid() };
                let slot = slab_insert(&mut self.leaves, fresh);
                self.by_entity.insert(entity, slot);
                proof {
                    assert forall|e: EntityId| #[trigger]
                        self.slots().contains_key(e) implies self.entries().contains_key(
                        self.slots()[e],
                    ) && self.entries()[self.slots()[e]].entity == e by {
                        if e != entity {
                            assert(old(self).slots().contains_key(e));
                        }
                    }
                    assert forall|s: usize| #[trigger]
                        self.entries().contains_key(s) implies self.slots().contains_key(
                        self.entries()[s].entity,
                    ) && self.slots()[self.entries()[s].entity] == s by {
                        if s != slot {
                            assert(old(self).entries().contains_key(s));
                        }
                    }
                }
                slot
            },
        }
    }

    /// Frees the slot of `entity` and returns it; `None` when the entity is
    /// not tracked, and the table then stays as it is.
    pub fn remove(&mut self, entity: EntityId) -> (r: Option<usize>)
        requires
            old(self).wf(),
        ensures
            final(self).wf(),
            r == (if old(self).slots().contains_key(entity) {
                Some(old(self).slots()[entity])
            } else {
                None
            }),
            r is None ==> *final(self) == *old(self),
            final(self).slots() == old(self).slots().remove(entity),
            r matches Some(slot) ==> final(self).entries() == old(self).entries().remove(slot),
    {
        match self.slot_of(entity) {
            Some(slot) => {
                self.by_entity.remove(&entity);
                slab_remove(&mut self.leaves, slot);
                proof {
                    assert forall|e: EntityId| #[trigger]
                        self.slots().contains_key(e) implies self.entries().contains_key(
                        self.slots()[e],
                    ) && self.entries()[self.slots()[e]].entity == e by {
                        assert(old(self).slots().contains_key(e));
                    }
                    assert forall|s: usize| #[trigger]
                        self.entries().contains_key(s) implies self.slots().contains_key(
                        self.entries()[s].entity,
                    ) && self.slots()[self.entries()[s].entity] == s by {
                        assert(old(self).entries().contains_key(s));
                    }
                }
                Some(slot)
            },
            None => {
                assert(old(self).slots().remove(entity) =~= old(self).slots());
                None
            },
        }
    }

    /// What `slot` holds, or `None` when the slot is free.
    pub fn lookup(&self, slot: usize) -> (r: Option<(EntityId, Aabb)>)
        ensures
            r == (if self.entries().contains_key(slot) {
                Some((self.entries()[slot].entity, self.entries()[slot].aabb))
            } else {
                None
            }),
    {
        match slab_get(&self.leaves, slot) {
            Some(leaf) => Some((leaf.entity, leaf.aabb)),
            None => None,
        }
    }

    /// The box stored under `slot`; the empty box when the slot is free.
    pub fn box_of(&self, slot: usize) -> (b: Aabb)
        ensures
            b == self.box_at(slot),
    {
        match slab_get(&self.leaves, slot) {
            Some(leaf) => leaf.aabb,
            None => Aabb::new_invalid(),
        }
    }

    /// Overwrites the box of a live slot. A free slot is left alone.
    pub fn set_box(&mut self, slot: usize, aabb: Aabb)
        requires
            old(self).wf(),
        ensures
            final(self).wf(),
            final(self).slots() == old(self).slots(),
            old(self).entries().contains_key(slot) ==> final(self).entries() == old(
                self,
            ).entries().insert(slot, Leaf { entity: old(self).entries()[slot].entity, aabb }),
            !old(self).entries().contains_key(slot) ==> final(self).entries() == old(
                self,
            ).entries(),
    {
        match slab_get(&self.leaves, slot) {
            Some(leaf) => {
                slab_set(&mut self.leaves, slot, Leaf { entity: leaf.entity, aabb });
            },
            None => {},
        }
    }

    /// The number of tracked entities.
    pub fn len(&self) -> (n: usize)
        ensures
            n == self.slots().len(),
    {
        self.by_entity.len()
    }
}

} // verus!
