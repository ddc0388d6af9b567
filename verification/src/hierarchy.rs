//! The hierarchy: a bounding-volume tree over the slots of the handle table.
//!
//! Its model is a map from attached slot to the box stored in that slot's
//! leaf, and a set of slots marked for the next refit. The tree below the
//! model is well-formed at every call boundary, so a search is complete with
//! respect to the stored boxes at any time; what a refit restores is the
//! agreement between the stored boxes and the boxes of the handle table.

use std::collections::HashMap;
use std::collections::HashSet;
use vstd::prelude::*;
use crate::geometry::Aabb;
use crate::handle_table::HandleTable;
use crate::node::{detach_leaf, insert_leaf, search, update_leaf, Node};
use crate::rebuild::{build, collect, leaf_seq, leaf_seq_is_leaves, well_split};

verus! {

/// The tree, the box stored for each attached slot, and the slots that wait
/// for the next refit, as a queue and as a set.
pub struct Hierarchy {
    root: Option<Box<Node>>,
    stored: HashMap<usize, Aabb>,
    queue: Vec<usize>,
    queued: HashSet<usize>,
}

/// The leaves after a refit: a marked slot is attached exactly when the
/// table has a valid box for it, and then holds that box grown by the
/// margin; an unmarked slot keeps what it had.
pub open spec fn refitted(
    leaves: Map<usize, Aabb>,
    dirty: Set<usize>,
    margin: u32,
    table: HandleTable,
) -> Map<usize, Aabb> {
    Map::new(
        |s: usize|
            if dirty.contains(s) {
                table.box_at(s).is_valid()
            } else {
                leaves.contains_key(s)
            },
        |s: usize|
            if dirty.contains(s) {
                table.box_at(s).grown(margin)
            } else {
                leaves[s]
            },
    )
}

/// Every marked slot is attached and has a valid box in the table: a refit
/// then has no leaf to attach or detach.
pub open spec fn refit_in_place(
    leaves: Map<usize, Aabb>,
    dirty: Set<usize>,
    table: HandleTable,
) -> bool {
    forall|s: usize| #[trigger]
        dirty.contains(s) ==> leaves.contains_key(s) && table.box_at(s).is_valid()
}

/// Both trees are absent, or both are there and have the same shape.
pub open spec fn shape_kept(before: Option<Box<Node>>, after: Option<Box<Node>>) -> bool {
    match (before, after) {
        (None, None) => true,
        (Some(a), Some(b)) => a.same_shape(*b),
        _ => false,
    }
}

impl Hierarchy {
    /// The root of the tree; `None` while no slot is attached.
    pub closed spec fn root(self) -> Option<Box<Node>> {
        self.root
    }

    /// The attached slots, each with the box stored in its leaf.
    pub closed spec fn leaves(self) -> Map<usize, Aabb> {
        self.stored@
    }

    /// The slots marked for the next refit.
    pub closed spec fn dirty(self) -> Set<usize> {
        self.queued@
    }

    /// Every marked slot stands in the queue that the next refit walks.
    pub closed spec fn queue_holds_dirty(self) -> bool {
        forall|s: usize| self.queued@.contains(s) ==> self.queue@.contains(s)
    }

    /// The tree is well-formed and its leaves are the attached slots.
    pub open spec fn tree_ok(self) -> bool {
        match self.root() {
            Some(node) => node.wf() && node.leaves() == self.leaves(),
            None => self.leaves() == Map::<usize, Aabb>::empty(),
        }
    }

    /// The tree is in order, and no marked slot is missing from the queue.
    pub open spec fn wf(self) -> bool {
        self.tree_ok() && self.queue_holds_dirty()
    }

    /// The tree is as a rebuild leaves it: every branch parts its leaves
    /// along an axis or halves them.
    pub open spec fn balanced(self) -> bool {
        match self.root() {
            Some(node) => well_split(*node),
            None => true,
        }
    }

    /// The slots that a search for `query` reports, in its order.
    pub open spec fn hits(self, query: Aabb) -> Seq<usize> {
        match self.root() {
            Some(node) => node.hits(query),
            None => Seq::empty(),
        }
    }

    /// In a well-formed hierarchy the box of every node covers the stored
    /// box of every leaf below that node.
    pub proof fn union_soundness(self, node: Node, slot: usize)
        requires
            self.wf(),
            self.root() matches Some(top) && top.has_node(node),
            node.leaves().contains_key(slot),
        ensures
            self.leaves().contains_key(slot),
            self.leaves()[slot] == node.leaves()[slot],
            node.bounds().covers(self.leaves()[slot]),
    {
        let top = self.root().unwrap();
        top.node_of_tree(node);
        node.bounds_cover_leaves();
        assert(node.leaves().dom().contains(slot));
        assert(top.leaves().dom().contains(slot));
        assert(top.leaves()[slot] == node.leaves()[slot]);
        assert(node.bounds().covers(node.leaves()[slot]));
    }

    /// A search reports no slot twice, and reports exactly the attached
    /// slots whose stored box overlaps the query.
    pub proof fn hits_are_overlapping_leaves(self, query: Aabb)
        requires
            self.wf(),
        ensures
            self.hits(query).no_duplicates(),
            forall|s: usize|
                self.hits(query).contains(s) <==> self.leaves().contains_key(s)
                    && self.leaves()[s].overlaps(query),
    {
        match self.root() {
            Some(node) => {
                node.hits_are_overlapping_leaves(query);
            },
            None => {},
        }
    }

    /// A hierarchy without leaves or marks.
    pub fn new() -> (h: Hierarchy)
        ensures
            h.wf(),
            h.root() is None,
            h.leaves() == Map::<usize, Aabb>::empty(),
            h.dirty() == Set::<usize>::empty(),
    {
        Hierarchy { root: None, stored: HashMap::new(), queue: Vec::new(), queued: HashSet::new() }
    }

    /// Marks `slot` for the next refit. Marking a marked slot changes nothing.
    pub fn mark_dirty(&mut self, slot: usize)
        requires
            old(self).wf(),
        ensures
            final(self).wf(),
            final(self).root() == old(self).root(),
            final(self).leaves() == old(self).leaves(),
            final(self).dirty() == old(self).dirty().insert(slot),
    {
        if self.queued.insert(slot) {
            self.queue.push(slot);
            proof {
                assert forall|s: usize| self.queued@.contains(s) implies self.queue@.contains(
                    s,
                ) by {
                    if s == slot {
                        assert(self.queue@[self.queue@.len() - 1] == slot);
                    } else {
                        assert(old(self).queue@.contains(s));
                        let i = choose|i: int|
                            0 <= i < old(self).queue@.len() && old(self).queue@[i] == s;
                        assert(self.queue@[i] == s);
                    }
                }
            }
        }
    }

    /// The root of the tree, for reading; `None` while no slot is attached.
    pub fn top(&self) -> (r: Option<&Node>)
        ensures
            match (r, self.root()) {
                (Some(node), Some(held)) => *node == *held,
                (None, None) => true,
                _ => false,
            },
    {
        match &self.root {
            Some(held) => Some(&**held),
            None => None,
        }
    }

    /// Whether `slot` is marked for the next refit.
    pub fn is_dirty(&self, slot: usize) -> (r: bool)
        ensures
            r == self.dirty().contains(slot),
    {
        self.queued.contains(&slot)
    }

    /// The box stored in the leaf of `slot`, if the slot is attached.
    pub fn stored_box(&self, slot: usize) -> (r: Option<Aabb>)
        ensures
            r == (if self.leaves().contains_key(slot) {
                Some(self.leaves()[slot])
            } else {
                None
            }),
    {
        match self.stored.get(&slot) {
            Some(held) => Some(*held),
            None => None,
        }
    }

    /// Attaches `slot` with the box `aabb`, or gives its leaf that box.
    fn put(&mut self, slot: usize, aabb: Aabb)
        requires
            old(self).tree_ok(),
            aabb.is_valid(),
        ensures
            final(self).tree_ok(),
            final(self).leaves() == old(self).leaves().insert(slot, aabb),
            final(self).queue == old(self).queue,
            final(self).queued == old(self).queued,
            old(self).leaves().contains_key(slot) ==> shape_kept(
                old(self).root(),
                final(self).root(),
            ),
    {
        let held = self.stored_box(slot);
        let top = self.root.take();
        match top {
            None => {
                let leaf = Box::new(Node::Leaf { slot, aabb });
                assert(leaf.leaves() =~= old(self).leaves().insert(slot, aabb));
                self.root = Some(leaf);
            },
            Some(node) => {
                match held {
                    Some(hint) => {
                        let (changed, _) = update_leaf(node, slot, &hint, aabb);
                        self.root = Some(changed);
                    },
                    None => {
                        self.root = Some(insert_leaf(node, slot, aabb));
                    },
                }
            },
        }
        self.stored.insert(slot, aabb);
    }

    /// Detaches `slot`, if it is attached.
    fn take_out(&mut self, slot: usize)
        requires
            old(self).tree_ok(),
        ensures
            final(self).tree_ok(),
            final(self).leaves() == old(self).leaves().remove(slot),
            final(self).queue == old(self).queue,
            final(self).queued == old(self).queued,
    {
        match self.stored_box(slot) {
            Some(hint) => {
                let top = self.root.take();
                match top {
                    Some(node) => {
                        let (rest, _) = detach_leaf(node, slot, &hint);
                        self.root = rest;
                    },
                    None => {},
                }
                self.stored.remove(&slot);
            },
            None => {
                assert(self.leaves().remove(slot) =~= self.leaves());
            },
        }
    }

    /// Detaches the leaf of `slot` at once and takes the slot off the marked
    /// ones. A slot that the hierarchy does not know is left alone.
    pub fn remove(&mut self, slot: usize)
        requires
            old(self).wf(),
        ensures
            final(self).wf(),
            final(self).leaves() == old(self).leaves().remove(slot),
            final(self).dirty() == old(self).dirty().remove(slot),
    {
        self.take_out(slot);
        self.queued.remove(&slot);
    }

    /// Reads the box of every marked slot from the table. A slot with a valid
    /// box is attached, or its leaf updated in place, with that box grown by
    /// `margin`; a slot without one is detached. The boxes of the branches
    /// above are recomputed, and no slot stays marked. Where every marked
    /// slot was attached and has a valid box, the tree keeps its shape.
    pub fn refit(&mut self, margin: u32, table: &HandleTable)
        requires
            old(self).wf(),
        ensures
            final(self).wf(),
            final(self).dirty() == Set::<usize>::empty(),
            final(self).leaves() == refitted(old(self).leaves(), old(self).dirty(), margin, *table),
            refit_in_place(old(self).leaves(), old(self).dirty(), *table) ==> shape_kept(
                old(self).root(),
                final(self).root(),
            ),
    {
        let ghost marked = self.queued@;
        let ghost before = self.stored@;
        let ghost top = self.root;
        proof {
            shape_kept_reflexive(top);
            assert(self.stored@ =~= refitted(before, marked.difference(self.queued@), margin, *table));
        }
        let mut i: usize = 0;
        while i < self.queue.len()
            invariant
                i <= self.queue.len(),
                self.tree_ok(),
                self.queued@.subset_of(marked),
                forall|s: usize|
                    self.queued@.contains(s) ==> exists|j: int|
                        i <= j < self.queue@.len() && #[trigger] self.queue@[j] == s,
                self.stored@ == refitted(before, marked.difference(self.queued@), margin, *table),
                refit_in_place(before, marked, *table) ==> shape_kept(top, self.root),
            decreases self.queue.len() - i,
        {
            let slot = self.queue[i];
            let ghost waiting = self.queued@;
            let ghost held = self.stored@;
            let ghost was = self.root;
            if self.queued.remove(&slot) {
                let aabb = table.box_of(slot);
                if aabb.valid() {
                    self.put(slot, aabb.loosened(margin));
                    proof {
                        Aabb::grown_covers(aabb, margin);
                        if refit_in_place(before, marked, *table) {
                            assert(marked.contains(slot));
                            assert(held.contains_key(slot));
                            shape_kept_transitive(top, was, self.root);
                        }
                    }
                } else {
                    self.take_out(slot);
                }
                assert(self.stored@ =~= refitted(
                    before,
                    marked.difference(self.queued@),
                    margin,
                    *table,
                ));
            }
            proof {
                assert forall|s: usize| self.queued@.contains(s) implies exists|j: int|
                    i + 1 <= j < self.queue@.len() && #[trigger] self.queue@[j] == s by {
                    assert(waiting.contains(s));
                    let j = choose|j: int| i <= j < self.queue@.len() && #[trigger] self.queue@[j] == s;
                    assert(j != i);
                }
            }
            i += 1;
        }
        self.queue.clear();
        proof {
            assert(self.queued@ =~= Set::<usize>::empty());
            assert(marked.difference(self.queued@) =~= marked);
        }
    }

    /// Builds the tree anew over the leaves it has: from the top down, each
    /// set of leaves is parted around the middle of its hull along the axis
    /// on which the hull is wider, or halved where that leaves one part
    /// empty. Leaves, stored boxes and marks stay as they are.
    pub fn rebalance(&mut self)
        requires
            old(self).wf(),
        ensures
            final(self).wf(),
            final(self).balanced(),
            final(self).leaves() == old(self).leaves(),
            final(self).dirty() == old(self).dirty(),
    {
        let top = self.root.take();
        match top {
            Some(node) => {
                let mut items: Vec<(usize, Aabb)> = Vec::new();
                proof {
                    leaf_seq_is_leaves(*node);
                }
                collect(node, &mut items);
                assert(items@ =~= leaf_seq(*node));
                self.root = Some(build(items));
            },
            None => {},
        }
    }

    /// Appends to `out` every attached slot whose stored box overlaps
    /// `aabb`, each once.
    pub fn query_overlapping(&self, aabb: &Aabb, out: &mut Vec<usize>)
        requires
            self.wf(),
        ensures
            final(out)@ == old(out)@ + self.hits(*aabb),
            self.hits(*aabb).no_duplicates(),
            forall|s: usize|
                self.hits(*aabb).contains(s) <==> self.leaves().contains_key(s)
                    && self.leaves()[s].overlaps(*aabb),
    {
        proof {
            self.hits_are_overlapping_leaves(*aabb);
        }
        match &self.root {
            Some(node) => {
                search(node, aabb, out);
            },
            None => {
                assert(out@ =~= old(out)@ + self.hits(*aabb));
            },
        }
    }
}

/// A tree, or no tree, has its own shape.
pub proof fn shape_kept_reflexive(a: Option<Box<Node>>)
    ensures
        shape_kept(a, a),
{
    match a {
        Some(node) => {
            node.same_shape_reflexive();
        },
        None => {},
    }
}

/// Keeping the shape twice keeps the shape.
pub proof fn shape_kept_transitive(
    a: Option<Box<Node>>,
    b: Option<Box<Node>>,
    c: Option<Box<Node>>,
)
    requires
        shape_kept(a, b),
        shape_kept(b, c),
    ensures
        shape_kept(a, c),
{
    match (a, b, c) {
        (Some(x), Some(y), Some(z)) => {
            x.same_shape_transitive(*y, *z);
        },
        _ => {},
    }
}

} // verus!
