//! The nearest-target search that runs on top of the index: the box to ask
//! the index for, and the choice among the candidates it returns.
//!
//! Distances are compared by their squares, which are exact on the grid.

use vstd::prelude::*;
use crate::geometry::{clamped, Aabb, Point};
use crate::index::IndexService;
use crate::handle_table::EntityId;

verus! {

/// The square of the distance between two points.
pub open spec fn dist_sq(a: Point, b: Point) -> int {
    (a.x - b.x) * (a.x - b.x) + (a.y - b.y) * (a.y - b.y)
}

/// The box around `center` that reaches `radius` to each side, cut off at
/// the border of the grid.
pub open spec fn search_area(center: Point, radius: u32) -> Aabb {
    Aabb {
        mins: Point {
            x: clamped(center.x - radius) as i32,
            y: clamped(center.y - radius) as i32,
        },
        maxs: Point {
            x: clamped(center.x + radius) as i32,
            y: clamped(center.y + radius) as i32,
        },
    }
}

/// The candidate is another entity than the searcher and lies closer to
/// `origin` than `radius`.
pub open spec fn in_reach(
    searcher: EntityId,
    origin: Point,
    radius: u32,
    candidate: (EntityId, Point),
) -> bool {
    candidate.0 != searcher && dist_sq(origin, candidate.1) < radius * radius
}

/// Candidate `i` is in reach, no candidate in reach is closer, and none
/// before it is as close.
pub open spec fn is_closest(
    searcher: EntityId,
    origin: Point,
    radius: u32,
    candidates: Seq<(EntityId, Point)>,
    i: int,
) -> bool {
    &&& 0 <= i < candidates.len()
    &&& in_reach(searcher, origin, radius, candidates[i])
    &&& forall|j: int|
        0 <= j < candidates.len() && in_reach(searcher, origin, radius, #[trigger] candidates[j])
            ==> {
            ||| dist_sq(origin, candidates[i].1) < dist_sq(origin, candidates[j].1)
            ||| dist_sq(origin, candidates[i].1) == dist_sq(origin, candidates[j].1) && i <= j
        }
}

/// The square of a distance on the grid fits in 65 bits.
proof fn square_is_bounded(d: int)
    requires
        -0x1_0000_0000 <= d <= 0x1_0000_0000,
    ensures
        0 <= d * d <= 0x1_0000_0000_0000_0000,
{
    assert(0 <= d * d <= 0x1_0000_0000 * 0x1_0000_0000) by (nonlinear_arith)
        requires
            -0x1_0000_0000 <= d <= 0x1_0000_0000,
    ;
}

/// The square of the distance between two points.
pub fn distance_squared(a: &Point, b: &Point) -> (d: u128)
    ensures
        d == dist_sq(*a, *b),
{
    let dx: i128 = a.x as i128 - b.x as i128;
    let dy: i128 = a.y as i128 - b.y as i128;
    proof {
        square_is_bounded(dx as int);
        square_is_bounded(dy as int);
    }
    (dx * dx + dy * dy) as u128
}

/// The box that a proximity query asks the index for.
pub fn search_box(center: &Point, radius: u32) -> (b: Aabb)
    ensures
        b == search_area(*center, radius),
        b.is_valid(),
{
    Aabb::from_point(*center).loosened(radius)
}

/// The entities that the index offers for a search around `origin`.
pub fn candidates(ix: &IndexService, origin: &Point, radius: u32) -> (found: Vec<EntityId>)
    requires
        ix.wf(),
    ensures
        ix.answers(search_area(*origin, radius), found@),
{
    let area = search_box(origin, radius);
    ix.range_query(&area)
}

/// Among the candidates, each given with its current position, the one that
/// lies closest to `origin`, if any lies closer than `radius`. The searcher
/// itself is passed over. Of several candidates at the same least distance
/// the first one is chosen.
pub fn closest(
    searcher: EntityId,
    origin: &Point,
    radius: u32,
    candidates: &Vec<(EntityId, Point)>,
) -> (r: Option<EntityId>)
    ensures
        match r {
            Some(entity) => exists|i: int|
                is_closest(searcher, *origin, radius, candidates@, i) && (#[trigger] candidates@[i]).0
                    == entity,
            None => forall|j: int|
                0 <= j < candidates.len() ==> !in_reach(
                    searcher,
                    *origin,
                    radius,
                    #[trigger] candidates@[j],
                ),
        },
{
    let reach: u128 = {
        let r: u64 = radius as u64;
        assert(r * r <= 0xffff_ffff * 0xffff_ffff) by (nonlinear_arith)
            requires
                0 <= r <= 0xffff_ffff,
        ;
        (r * r) as u128
    };
    let mut best: Option<EntityId> = None;
    let mut best_dist: u128 = reach;
    let ghost mut best_at: int = -1;
    let mut i: usize = 0;
    while i < candidates.len()
        invariant
            i <= candidates.len(),
            reach == radius * radius,
            best_dist <= reach,
            best is None <==> best_at == -1,
            best is None ==> best_dist == reach,
            best is None ==> forall|j: int|
                0 <= j < i ==> !in_reach(searcher, *origin, radius, #[trigger] candidates@[j]),
            best matches Some(entity) ==> {
                &&& 0 <= best_at < i
                &&& candidates@[best_at].0 == entity
                &&& best_dist == dist_sq(*origin, candidates@[best_at].1)
                &&& in_reach(searcher, *origin, radius, candidates@[best_at])
                &&& forall|j: int|
                    0 <= j < i && in_reach(searcher, *origin, radius, #[trigger] candidates@[j])
                        ==> {
                        ||| best_dist < dist_sq(*origin, candidates@[j].1)
                        ||| best_dist == dist_sq(*origin, candidates@[j].1) && best_at <= j
                    }
            },
        decreases candidates.len() - i,
    {
        let (entity, position) = candidates[i];
        if entity != searcher {
            let d = distance_squared(origin, &position);
            if d < best_dist {
                best = Some(entity);
                best_dist = d;
                proof {
                    best_at = i as int;
                }
            }
        }
        i += 1;
    }
    proof {
        if best is Some {
            assert(is_closest(searcher, *origin, radius, candidates@, best_at));
        }
    }
    best
}

/// At most one candidate is the closest: the choice is fixed by the list.
pub proof fn closest_is_unique(
    searcher: EntityId,
    origin: Point,
    radius: u32,
    candidates: Seq<(EntityId, Point)>,
    i: int,
    j: int,
)
    requires
        is_closest(searcher, origin, radius, candidates, i),
        is_closest(searcher, origin, radius, candidates, j),
    ensures
        i == j,
{
}

/// A search misses nothing in reach: once nothing is pending, every tracked
/// entity whose box holds a point closer to `origin` than `radius` is among
/// the entities that the index offers.
pub proof fn candidates_hold_all_in_reach(
    ix: IndexService,
    origin: Point,
    radius: u32,
    found: Seq<EntityId>,
    entity: EntityId,
    at: Point,
)
    requires
        ix.indexed() == crate::index::settled(ix.boxes(), ix.margin()),
        ix.answers(search_area(origin, radius), found),
        ix.boxes().contains_key(entity),
        ix.boxes()[entity].holds(at),
        dist_sq(origin, at) < radius * radius,
    ensures
        found.contains(entity),
{
    let held = ix.boxes()[entity];
    let area = search_area(origin, radius);
    let dx = origin.x - at.x;
    let dy = origin.y - at.y;
    assert(-radius < dx < radius && -radius < dy < radius) by (nonlinear_arith)
        requires
            dx * dx + dy * dy < radius * radius,
            radius >= 0,
    ;
    assert(area.holds(at));
    assert(held.overlaps(area));
    Aabb::grown_covers(held, ix.margin());
    Aabb::overlap_widens(held.grown(ix.margin()), held, area);
    assert(ix.indexed().contains_key(entity));
}

} // verus!
