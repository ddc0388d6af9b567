//! The index service: the handle table and the hierarchy behind one entry
//! point.
//!
//! Writers (`upsert`, `remove`, `maintain` and the batch calls) take the
//! service by `&mut`, readers (`range_query`) by `&`: one writer or many
//! readers, as the borrow rules have it. A caller that shares the service
//! between threads puts it behind a read-write lock.

use vstd::prelude::*;
use crate::geometry::Aabb;
use crate::handle_table::{EntityId, HandleTable};
use crate::hierarchy::Hierarchy;

verus! {

/// A handle table, the hierarchy over its slots, and the margin of a refit.
pub struct IndexService {
    table: HandleTable,
    tree: Hierarchy,
    margin: u32,
}

/// What the index holds once nothing is pending: every entity with a valid
/// box, under that box grown by the margin.
pub open spec fn settled(boxes: Map<EntityId, Aabb>, margin: u32) -> Map<EntityId, Aabb> {
    Map::new(
        |e: EntityId| boxes.contains_key(e) && boxes[e].is_valid(),
        |e: EntityId| boxes[e].grown(margin),
    )
}

/// The boxes after a batch of changes, applied in order.
pub open spec fn upserted(boxes: Map<EntityId, Aabb>, changes: Seq<(EntityId, Aabb)>) -> Map<
    EntityId,
    Aabb,
>
    decreases changes.len(),
{
    if changes.len() == 0 {
        boxes
    } else {
        upserted(boxes, changes.drop_last()).insert(changes.last().0, changes.last().1)
    }
}

/// The boxes after a batch of despawns.
pub open spec fn despawned(boxes: Map<EntityId, Aabb>, gone: Seq<EntityId>) -> Map<EntityId, Aabb>
    decreases gone.len(),
{
    if gone.len() == 0 {
        boxes
    } else {
        despawned(boxes, gone.drop_last()).remove(gone.last())
    }
}

impl IndexService {
    /// The handle table that the service owns.
    pub closed spec fn table(self) -> HandleTable {
        self.table
    }

    /// The hierarchy that the service owns.
    pub closed spec fn tree(self) -> Hierarchy {
        self.tree
    }

    /// The margin by which a refit grows each box.
    pub closed spec fn margin(self) -> u32 {
        self.margin
    }

    /// The tracked entities, each with its current box.
    pub open spec fn boxes(self) -> Map<EntityId, Aabb> {
        Map::new(
            |e: EntityId| self.table().slots().contains_key(e),
            |e: EntityId| self.table().entries()[self.table().slots()[e]].aabb,
        )
    }

    /// The entities that have a leaf in the tree, each with the box stored
    /// there: what a range query is answered from.
    pub open spec fn indexed(self) -> Map<EntityId, Aabb> {
        Map::new(
            |e: EntityId|
                self.table().slots().contains_key(e) && self.tree().leaves().contains_key(
                    self.table().slots()[e],
                ),
            |e: EntityId| self.tree().leaves()[self.table().slots()[e]],
        )
    }

    /// The entities whose box changed since the last `maintain`.
    pub open spec fn pending(self) -> Set<EntityId> {
        Set::new(
            |e: EntityId|
                self.table().slots().contains_key(e) && self.tree().dirty().contains(
                    self.table().slots()[e],
                ),
        )
    }

    /// Table and tree are well-formed; the tree knows live slots only; and
    /// every live slot that is not marked is in the tree exactly when its box
    /// is valid, under that box grown by the margin.
    pub open spec fn wf(self) -> bool {
        &&& self.table().wf()
        &&& self.tree().wf()
        &&& forall|s: usize| #[trigger]
            self.tree().leaves().contains_key(s) ==> self.table().entries().contains_key(s)
        &&& forall|s: usize| #[trigger]
            self.tree().dirty().contains(s) ==> self.table().entries().contains_key(s)
        &&& forall|s: usize| #[trigger]
            self.table().entries().contains_key(s) && !self.tree().dirty().contains(s) ==> {
                &&& self.tree().leaves().contains_key(s) == self.table().box_at(s).is_valid()
                &&& self.tree().leaves().contains_key(s) ==> self.tree().leaves()[s]
                    == self.table().box_at(s).grown(self.margin())
            }
    }

    /// `post` is `pre` after `upsert(entity, aabb)`.
    pub open spec fn upserts_to(
        pre: IndexService,
        post: IndexService,
        entity: EntityId,
        aabb: Aabb,
    ) -> bool {
        &&& post.margin() == pre.margin()
        &&& post.boxes() == pre.boxes().insert(entity, aabb)
        &&& post.indexed() == pre.indexed()
        &&& if pre.boxes().contains_key(entity) && pre.boxes()[entity] == aabb {
            post == pre
        } else {
            post.pending() == pre.pending().insert(entity)
        }
    }

    /// `post` is `pre` after `remove(entity)`.
    pub open spec fn removes_to(pre: IndexService, post: IndexService, entity: EntityId) -> bool {
        &&& post.margin() == pre.margin()
        &&& post.boxes() == pre.boxes().remove(entity)
        &&& post.indexed() == pre.indexed().remove(entity)
        &&& post.pending() == pre.pending().remove(entity)
        &&& pre.boxes().contains_key(entity) ==> {
            let slot = pre.table().slots()[entity];
            !post.table().entries().contains_key(slot) && !post.tree().leaves().contains_key(slot)
        }
        &&& !pre.boxes().contains_key(entity) ==> post == pre
    }

    /// `post` is `pre` after `maintain()`.
    pub open spec fn maintains_to(pre: IndexService, post: IndexService) -> bool {
        &&& post.margin() == pre.margin()
        &&& post.table() == pre.table()
        &&& post.boxes() == pre.boxes()
        &&& post.pending() == Set::<EntityId>::empty()
        &&& post.indexed() == settled(pre.boxes(), pre.margin())
        &&& post.tree().balanced()
    }

    /// `found` answers a range query for `query`: no entity twice, and
    /// exactly the indexed entities whose stored box overlaps the query.
    pub open spec fn answers(self, query: Aabb, found: Seq<EntityId>) -> bool {
        &&& found.no_duplicates()
        &&& forall|e: EntityId|
            found.contains(e) <==> self.indexed().contains_key(e) && self.indexed()[e].overlaps(
                query,
            )
    }

    /// An empty index whose refits grow each box by `margin`.
    pub fn new(margin: u32) -> (ix: IndexService)
        ensures
            ix.wf(),
            ix.margin() == margin,
            ix.boxes() == Map::<EntityId, Aabb>::empty(),
            ix.indexed() == Map::<EntityId, Aabb>::empty(),
            ix.pending() == Set::<EntityId>::empty(),
    {
        let ix = IndexService { table: HandleTable::new(), tree: Hierarchy::new(), margin };
        proof {
            assert(ix.boxes() =~= Map::<EntityId, Aabb>::empty());
            assert(ix.indexed() =~= Map::<EntityId, Aabb>::empty());
            assert(ix.pending() =~= Set::<EntityId>::empty());
        }
        ix
    }

    /// Tracks `entity` under the box `aabb` and marks it for the next
    /// `maintain`. Where the entity is tracked under that very box, nothing
    /// changes at all.
    pub fn upsert(&mut self, entity: EntityId, aabb: Aabb)
        requires
            old(self).wf(),
        ensures
            final(self).wf(),
            IndexService::upserts_to(*old(self), *final(self), entity, aabb),
    {
        let slot = match self.table.slot_of(entity) {
            Some(slot) => {
                if self.table.box_of(slot) == aabb {
                    proof {
                        assert(self.boxes() =~= self.boxes().insert(entity, aabb));
                    }
                    return;
                }
                slot
            },
            None => self.table.insert(entity),
        };
        self.table.set_box(slot, aabb);
        self.tree.mark_dirty(slot);
        proof {
            let pre = *old(self);
            let post = *self;
            assert forall|e: EntityId| #[trigger]
                post.table().slots().contains_key(e) && e != entity implies pre.table().slots().contains_key(
                e,
            ) && post.table().slots()[e] == pre.table().slots()[e] && post.table().slots()[e]
                != slot by {}
            assert(post.boxes() =~= pre.boxes().insert(entity, aabb));
            assert(post.indexed() =~= pre.indexed());
            assert(post.pending() =~= pre.pending().insert(entity));
        }
    }

    /// Detaches the leaf of `entity` from the tree, then frees its slot. An
    /// entity that is not tracked changes nothing.
    pub fn remove(&mut self, entity: EntityId)
        requires
            old(self).wf(),
        ensures
            final(self).wf(),
            IndexService::removes_to(*old(self), *final(self), entity),
    {
        match self.table.slot_of(entity) {
            Some(slot) => {
                self.tree.remove(slot);
                self.table.remove(entity);
                proof {
                    let pre = *old(self);
                    let post = *self;
                    assert forall|e: EntityId| #[trigger]
                        post.table().slots().contains_key(e) implies pre.table().slots().contains_key(
                        e,
                    ) && post.table().slots()[e] == pre.table().slots()[e]
                        && post.table().slots()[e] != slot by {}
                    assert(post.boxes() =~= pre.boxes().remove(entity));
                    assert(post.indexed() =~= pre.indexed().remove(entity));
                    assert(post.pending() =~= pre.pending().remove(entity));
                }
            },
            None => {
                proof {
                    assert(self.boxes().remove(entity) =~= self.boxes());
                    assert(self.indexed().remove(entity) =~= self.indexed());
                    assert(self.pending().remove(entity) =~= self.pending());
                }
            },
        }
    }

    /// Refits, then rebalances. Afterwards nothing is pending, and the index
    /// holds every entity with a valid box under that box grown by the
    /// margin.
    pub fn maintain(&mut self)
        requires
            old(self).wf(),
        ensures
            final(self).wf(),
            IndexService::maintains_to(*old(self), *final(self)),
    {
        self.tree.refit(self.margin, &self.table);
        self.tree.rebalance();
        proof {
            let pre = *old(self);
            let post = *self;
            assert(post.pending() =~= Set::<EntityId>::empty());
            assert(post.indexed() =~= settled(pre.boxes(), pre.margin()));
            assert(post.boxes() =~= pre.boxes());
        }
    }

    /// The entities whose stored box overlaps `aabb`, each once. A slot that
    /// does not resolve to an entity is left out.
    pub fn range_query(&self, aabb: &Aabb) -> (found: Vec<EntityId>)
        requires
            self.wf(),
        ensures
            self.answers(*aabb, found@),
    {
        let mut slots: Vec<usize> = Vec::new();
        self.tree.query_overlapping(aabb, &mut slots);
        let ghost hits = self.tree().hits(*aabb);
        assert(slots@ =~= hits);
        let mut found: Vec<EntityId> = Vec::new();
        let mut i: usize = 0;
        while i < slots.len()
            invariant
                i <= slots.len(),
                slots@ == hits,
                self.wf(),
                hits.no_duplicates(),
                forall|s: usize|
                    hits.contains(s) <==> self.tree().leaves().contains_key(s)
                        && self.tree().leaves()[s].overlaps(*aabb),
                found.len() == i,
                forall|j: int|
                    #![trigger hits[j]]
                    0 <= j < i ==> self.table().entries().contains_key(hits[j]) && found@[j]
                        == self.table().entries()[hits[j]].entity,
            decreases slots.len() - i,
        {
            proof {
                let s = hits[i as int];
                assert(hits.contains(s));
                assert(self.tree().leaves().contains_key(s));
                assert(self.table().entries().contains_key(s));
            }
            match self.table.lookup(slots[i]) {
                Some((entity, _)) => {
                    found.push(entity);
                },
                None => {},
            }
            i += 1;
        }
        proof {
            let entries = self.table().entries();
            let slot_of = self.table().slots();
            assert forall|a: int, b: int| 0 <= a < found@.len() && 0 <= b < found@.len() && a
                != b implies found@[a] != found@[b] by {
                assert(hits[a] != hits[b]);
                assert(entries.contains_key(hits[a]));
                assert(entries.contains_key(hits[b]));
            }
            assert forall|e: EntityId|
                found@.contains(e) <==> self.indexed().contains_key(e) && self.indexed()[e].overlaps(
                    *aabb,
                ) by {
                if found@.contains(e) {
                    let j = choose|j: int| 0 <= j < found@.len() && found@[j] == e;
                    assert(hits.contains(hits[j]));
                    assert(entries.contains_key(hits[j]));
                }
                if self.indexed().contains_key(e) && self.indexed()[e].overlaps(*aabb) {
                    let s = slot_of[e];
                    assert(hits.contains(s));
                    let j = choose|j: int| 0 <= j < hits.len() && hits[j] == s;
                    assert(slot_of.contains_key(e));
                    assert(found@[j] == e);
                }
            }
        }
        found
    }

    /// Applies what one tick of the world brought: the spawned and the
    /// changed entities are upserted in order, the despawned ones removed,
    /// and the index is maintained once.
    pub fn apply_batch(
        &mut self,
        spawned: &Vec<(EntityId, Aabb)>,
        changed: &Vec<(EntityId, Aabb)>,
        gone: &Vec<EntityId>,
    )
        requires
            old(self).wf(),
        ensures
            final(self).wf(),
            final(self).margin() == old(self).margin(),
            final(self).boxes() == despawned(
                upserted(upserted(old(self).boxes(), spawned@), changed@),
                gone@,
            ),
            final(self).pending() == Set::<EntityId>::empty(),
            final(self).indexed() == settled(final(self).boxes(), final(self).margin()),
            final(self).tree().balanced(),
    {
        self.upsert_all(spawned);
        self.upsert_all(changed);
        self.remove_all(gone);
        self.maintain();
    }

    /// Upserts the entities of a batch in order.
    fn upsert_all(&mut self, changes: &Vec<(EntityId, Aabb)>)
        requires
            old(self).wf(),
        ensures
            final(self).wf(),
            final(self).margin() == old(self).margin(),
            final(self).boxes() == upserted(old(self).boxes(), changes@),
    {
        let mut i: usize = 0;
        while i < changes.len()
            invariant
                i <= changes.len(),
                self.wf(),
                self.margin() == old(self).margin(),
                self.boxes() == upserted(old(self).boxes(), changes@.take(i as int)),
            decreases changes.len() - i,
        {
            let (entity, aabb) = changes[i];
            self.upsert(entity, aabb);
            proof {
                assert(changes@.take(i + 1).drop_last() =~= changes@.take(i as int));
            }
            i += 1;
        }
        assert(changes@.take(i as int) =~= changes@);
    }

    /// Removes the entities of a batch.
    fn remove_all(&mut self, gone: &Vec<EntityId>)
        requires
            old(self).wf(),
        ensures
            final(self).wf(),
            final(self).margin() == old(self).margin(),
            final(self).boxes() == despawned(old(self).boxes(), gone@),
    {
        let mut i: usize = 0;
        while i < gone.len()
            invariant
                i <= gone.len(),
                self.wf(),
                self.margin() == old(self).margin(),
                self.boxes() == despawned(old(self).boxes(), gone@.take(i as int)),
            decreases gone.len() - i,
        {
            self.remove(gone[i]);
            proof {
                assert(gone@.take(i + 1).drop_last() =~= gone@.take(i as int));
            }
            i += 1;
        }
        assert(gone@.take(i as int) =~= gone@);
    }

    /// Applies a batch of changes in order, then maintains once.
    pub fn apply_changes(&mut self, changes: &Vec<(EntityId, Aabb)>)
        requires
            old(self).wf(),
        ensures
            final(self).wf(),
            final(self).margin() == old(self).margin(),
            final(self).boxes() == upserted(old(self).boxes(), changes@),
            final(self).pending() == Set::<EntityId>::empty(),
            final(self).indexed() == settled(final(self).boxes(), final(self).margin()),
            final(self).tree().balanced(),
    {
        self.upsert_all(changes);
        self.maintain();
    }

    /// Removes a batch of despawned entities, then maintains once.
    pub fn apply_despawns(&mut self, gone: &Vec<EntityId>)
        requires
            old(self).wf(),
        ensures
            final(self).wf(),
            final(self).margin() == old(self).margin(),
            final(self).boxes() == despawned(old(self).boxes(), gone@),
            final(self).pending() == Set::<EntityId>::empty(),
            final(self).indexed() == settled(final(self).boxes(), final(self).margin()),
            final(self).tree().balanced(),
    {
        self.remove_all(gone);
        self.maintain();
    }

    /// The handle table, for reading.
    pub fn handle_table(&self) -> (t: &HandleTable)
        ensures
            *t == self.table(),
    {
        &self.table
    }

    /// The hierarchy, for reading.
    pub fn hierarchy(&self) -> (h: &Hierarchy)
        ensures
            *h == self.tree(),
    {
        &self.tree
    }

    /// Whether `entity` is tracked.
    pub fn contains(&self, entity: EntityId) -> (r: bool)
        ensures
            r == self.boxes().contains_key(entity),
    {
        self.table.slot_of(entity).is_some()
    }

    /// The current box of `entity`, if it is tracked.
    pub fn box_of(&self, entity: EntityId) -> (r: Option<Aabb>)
        requires
            self.wf(),
        ensures
            r == (if self.boxes().contains_key(entity) {
                Some(self.boxes()[entity])
            } else {
                None
            }),
    {
        match self.table.slot_of(entity) {
            Some(slot) => Some(self.table.box_of(slot)),
            None => None,
        }
    }

    /// Whether `entity` waits for the next `maintain`.
    pub fn is_pending(&self, entity: EntityId) -> (r: bool)
        ensures
            r == self.pending().contains(entity),
    {
        match self.table.slot_of(entity) {
            Some(slot) => self.tree.is_dirty(slot),
            None => false,
        }
    }

    /// The number of tracked entities.
    pub fn len(&self) -> (n: usize)
        ensures
            n == self.boxes().dom().len(),
    {
        assert(self.boxes().dom() =~= self.table().slots().dom());
        self.table.len()
    }
}

} // verus!
