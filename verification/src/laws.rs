//! What holds of the index across calls, proved from the contracts of the
//! calls alone.

use vstd::prelude::*;
use crate::geometry::Aabb;
use crate::handle_table::{EntityId, Leaf};
use crate::index::{settled, IndexService};
use crate::node::Node;

verus! {

/// Entity to slot and slot to entity are inverse to each other: the slot of
/// a tracked entity holds that entity and its current box.
pub proof fn tracked_entity_resolves(ix: IndexService, entity: EntityId)
    requires
        ix.wf(),
        ix.boxes().contains_key(entity),
    ensures
        ix.table().slots().contains_key(entity),
        ix.table().entries().contains_key(ix.table().slots()[entity]),
        ix.table().entries()[ix.table().slots()[entity]] == (Leaf {
            entity,
            aabb: ix.boxes()[entity],
        }),
{
}

/// Right after an upsert the entity resolves to the box it was given.
pub proof fn upserted_entity_resolves(
    pre: IndexService,
    post: IndexService,
    entity: EntityId,
    aabb: Aabb,
)
    requires
        post.wf(),
        IndexService::upserts_to(pre, post, entity, aabb),
    ensures
        post.table().slots().contains_key(entity),
        post.table().entries().contains_key(post.table().slots()[entity]),
        post.table().entries()[post.table().slots()[entity]] == (Leaf { entity, aabb }),
{
    assert(post.boxes().contains_key(entity));
    assert(post.boxes()[entity] == aabb);
}

/// After a remove the entity has no slot, and the slot it had holds nothing.
pub proof fn removed_entity_is_gone(pre: IndexService, post: IndexService, entity: EntityId)
    requires
        pre.wf(),
        IndexService::removes_to(pre, post, entity),
    ensures
        !post.table().slots().contains_key(entity),
        pre.table().slots().contains_key(entity) ==> !post.table().entries().contains_key(
            pre.table().slots()[entity],
        ),
{
    assert(!post.boxes().contains_key(entity));
    if pre.table().slots().contains_key(entity) {
        assert(pre.boxes().contains_key(entity));
    }
}

/// No range query after a remove returns the removed entity, whatever the
/// query covers and whether or not `maintain` ran in between.
pub proof fn removed_entity_is_never_found(
    pre: IndexService,
    post: IndexService,
    entity: EntityId,
    query: Aabb,
    found: Seq<EntityId>,
)
    requires
        IndexService::removes_to(pre, post, entity),
        post.answers(query, found),
    ensures
        !found.contains(entity),
{
    assert(!post.indexed().contains_key(entity));
}

/// After `maintain`, the box of every node of the tree covers the box of
/// every tracked entity whose leaf lies below that node, grown by the margin
/// and so also as it is.
pub proof fn union_soundness_after_maintain(
    pre: IndexService,
    post: IndexService,
    node: Node,
    entity: EntityId,
)
    requires
        post.wf(),
        IndexService::maintains_to(pre, post),
        post.tree().root() matches Some(top) && top.has_node(node),
        post.boxes().contains_key(entity),
        node.leaves().contains_key(post.table().slots()[entity]),
    ensures
        post.boxes()[entity].is_valid(),
        node.bounds().covers(post.boxes()[entity].grown(post.margin())),
        node.bounds().covers(post.boxes()[entity]),
{
    let slot = post.table().slots()[entity];
    post.tree().union_soundness(node, slot);
    assert(post.indexed().contains_key(entity));
    assert(post.indexed()[entity] == settled(pre.boxes(), pre.margin())[entity]);
    Aabb::grown_covers(post.boxes()[entity], post.margin());
}

/// After `maintain`, two tracked entities whose boxes overlap find each
/// other: a range query for the box of either returns the other.
pub proof fn query_completeness(
    before: IndexService,
    ix: IndexService,
    first: EntityId,
    second: EntityId,
    found_by_first: Seq<EntityId>,
    found_by_second: Seq<EntityId>,
)
    requires
        IndexService::maintains_to(before, ix),
        ix.boxes().contains_key(first),
        ix.boxes().contains_key(second),
        ix.boxes()[first].overlaps(ix.boxes()[second]),
        ix.answers(ix.boxes()[first], found_by_first),
        ix.answers(ix.boxes()[second], found_by_second),
    ensures
        found_by_first.contains(second),
        found_by_second.contains(first),
{
    let a = ix.boxes()[first];
    let b = ix.boxes()[second];
    Aabb::grown_covers(a, ix.margin());
    Aabb::grown_covers(b, ix.margin());
    Aabb::overlap_is_symmetric(a, b);
    Aabb::overlap_widens(b.grown(ix.margin()), b, a);
    Aabb::overlap_widens(a.grown(ix.margin()), a, b);
    assert(ix.indexed().contains_key(second));
    assert(ix.indexed().contains_key(first));
}

/// After `maintain` a range query returns every tracked entity whose box
/// overlaps the query.
pub proof fn maintained_query_is_complete(
    pre: IndexService,
    post: IndexService,
    entity: EntityId,
    query: Aabb,
    found: Seq<EntityId>,
)
    requires
        IndexService::maintains_to(pre, post),
        post.boxes().contains_key(entity),
        post.boxes()[entity].overlaps(query),
        post.answers(query, found),
    ensures
        found.contains(entity),
{
    let b = post.boxes()[entity];
    Aabb::grown_covers(b, post.margin());
    Aabb::overlap_widens(b.grown(post.margin()), b, query);
    assert(post.indexed().contains_key(entity));
}

/// With a margin of zero, a range query after `maintain` returns exactly the
/// tracked entities whose box overlaps the query.
pub proof fn exact_query_without_margin(
    pre: IndexService,
    post: IndexService,
    query: Aabb,
    found: Seq<EntityId>,
)
    requires
        IndexService::maintains_to(pre, post),
        post.margin() == 0,
        post.answers(query, found),
    ensures
        forall|e: EntityId|
            found.contains(e) <==> post.boxes().contains_key(e) && post.boxes()[e].overlaps(query),
{
    assert forall|e: EntityId|
        found.contains(e) <==> post.boxes().contains_key(e) && post.boxes()[e].overlaps(
            query,
        ) by {
        if post.boxes().contains_key(e) {
            Aabb::grown_covers(post.boxes()[e], 0);
        }
        if post.boxes().contains_key(e) && post.boxes()[e].overlaps(query) {
            assert(post.indexed().contains_key(e));
        }
    }
}

/// An upsert with the box that the entity already has is no operation: a
/// second identical upsert leaves the whole index, the shape of its tree
/// included, as the first one left it, and so every query has the same
/// answers.
pub proof fn repeated_upsert_changes_nothing(
    pre: IndexService,
    once: IndexService,
    twice: IndexService,
    entity: EntityId,
    aabb: Aabb,
)
    requires
        IndexService::upserts_to(pre, once, entity, aabb),
        IndexService::upserts_to(once, twice, entity, aabb),
    ensures
        twice == once,
        twice.tree().root() == once.tree().root(),
        forall|query: Aabb, found: Seq<EntityId>|
            once.answers(query, found) == twice.answers(query, found),
{
    assert(once.boxes().contains_key(entity));
    assert(once.boxes()[entity] == aabb);
}

} // verus!
