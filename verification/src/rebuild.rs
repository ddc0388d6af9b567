//! Taking a tree apart into its leaves and building a fresh tree over them.
//!
//! The builder splits the leaves around the middle of their hull, along the
//! axis on which the hull is wider, and builds each part in the same way.
//! Where all leaves fall on one side, it halves them by position instead.

use vstd::prelude::*;
use crate::geometry::Aabb;
use crate::node::{join, Node};

verus! {

/// Some item of `items` stands for `slot`.
pub open spec fn has_slot(items: Seq<(usize, Aabb)>, slot: usize) -> bool {
    exists|i: int| 0 <= i < items.len() && (#[trigger] items[i]).0 == slot
}

/// No slot occurs twice.
pub open spec fn distinct_slots(items: Seq<(usize, Aabb)>) -> bool {
    forall|i: int, j: int|
        0 <= i < j < items.len() ==> (#[trigger] items[i]).0 != (#[trigger] items[j]).0
}

/// Every box is valid.
pub open spec fn all_valid(items: Seq<(usize, Aabb)>) -> bool {
    forall|i: int| 0 <= i < items.len() ==> (#[trigger] items[i]).1.is_valid()
}

/// The items as a map from slot to box.
pub open spec fn entries(items: Seq<(usize, Aabb)>) -> Map<usize, Aabb>
    decreases items.len(),
{
    if items.len() == 0 {
        Map::empty()
    } else {
        entries(items.drop_last()).insert(items.last().0, items.last().1)
    }
}

/// The leaves of a tree from left to right.
pub open spec fn leaf_seq(node: Node) -> Seq<(usize, Aabb)>
    decreases node,
{
    match node {
        Node::Leaf { slot, aabb } => seq![(slot, aabb)],
        Node::Branch { left, right, .. } => leaf_seq(*left) + leaf_seq(*right),
    }
}

/// The map of a sequence has exactly the slots of its items, and where no
/// slot occurs twice it gives each slot the box of its item.
pub proof fn entries_of_items(items: Seq<(usize, Aabb)>)
    ensures
        forall|k: usize|
            #![trigger entries(items).contains_key(k)]
            #![trigger has_slot(items, k)]
            entries(items).contains_key(k) <==> has_slot(items, k),
        distinct_slots(items) ==> forall|i: int|
            0 <= i < items.len() ==> entries(items)[(#[trigger] items[i]).0] == items[i].1,
    decreases items.len(),
{
    if items.len() > 0 {
        let front = items.drop_last();
        entries_of_items(front);
        assert forall|k: usize| entries(items).contains_key(k) <==> has_slot(items, k) by {
            if has_slot(items, k) {
                let i = choose|i: int| 0 <= i < items.len() && (#[trigger] items[i]).0 == k;
                if i < front.len() {
                    assert(front[i].0 == k);
                }
            }
            if has_slot(front, k) {
                let i = choose|i: int| 0 <= i < front.len() && (#[trigger] front[i]).0 == k;
                assert(items[i].0 == k);
            }
            if k == items.last().0 {
                assert(items[items.len() - 1].0 == k);
            }
        }
        if distinct_slots(items) {
            assert(distinct_slots(front)) by {
                assert forall|i: int, j: int| 0 <= i < j < front.len() implies (#[trigger] front[i]).0
                    != (#[trigger] front[j]).0 by {
                    assert(items[i].0 != items[j].0);
                }
            }
            assert forall|i: int| 0 <= i < items.len() implies entries(items)[(#[trigger] items[i]).0]
                == items[i].1 by {
                if i < front.len() {
                    assert(front[i] == items[i]);
                    assert(items[i].0 != items[items.len() - 1].0);
                }
            }
        }
    }
}

/// Adding an item whose slot is new keeps the slots distinct and the boxes
/// valid, and adds one entry to the map.
pub proof fn entries_after_push(items: Seq<(usize, Aabb)>, item: (usize, Aabb))
    requires
        distinct_slots(items),
        all_valid(items),
        !has_slot(items, item.0),
        item.1.is_valid(),
    ensures
        distinct_slots(items.push(item)),
        all_valid(items.push(item)),
        entries(items.push(item)) == entries(items).insert(item.0, item.1),
{
    let more = items.push(item);
    assert(more.drop_last() =~= items);
    assert forall|i: int, j: int| 0 <= i < j < more.len() implies (#[trigger] more[i]).0 != (
    #[trigger] more[j]).0 by {
        if j == items.len() {
            assert(items[i].0 != item.0);
        } else {
            assert(items[i].0 != items[j].0);
        }
    }
    assert forall|i: int| 0 <= i < more.len() implies (#[trigger] more[i]).1.is_valid() by {
        if i < items.len() {
            assert(items[i].1.is_valid());
        }
    }
}

/// From left to right, the leaves of a well-formed tree are its map of
/// leaves: no slot twice, every box valid.
pub proof fn leaf_seq_is_leaves(node: Node)
    requires
        node.wf(),
    ensures
        distinct_slots(leaf_seq(node)),
        all_valid(leaf_seq(node)),
        leaf_seq(node).len() >= 1,
        entries(leaf_seq(node)) == node.leaves(),
    decreases node,
{
    match node {
        Node::Leaf { slot, aabb } => {
            let s = seq![(slot, aabb)];
            assert(s.drop_last() =~= Seq::<(usize, Aabb)>::empty());
            assert(entries(s.drop_last()) =~= Map::<usize, Aabb>::empty());
            assert(entries(s) =~= node.leaves());
        },
        Node::Branch { left, right, .. } => {
            leaf_seq_is_leaves(*left);
            leaf_seq_is_leaves(*right);
            entries_of_concat(leaf_seq(*left), leaf_seq(*right));
        },
    }
}

/// Two sequences with distinct slots and no slot in common make one such
/// sequence, whose map is the union of the two maps.
pub proof fn entries_of_concat(a: Seq<(usize, Aabb)>, b: Seq<(usize, Aabb)>)
    requires
        distinct_slots(a),
        distinct_slots(b),
        all_valid(a),
        all_valid(b),
        entries(a).dom().disjoint(entries(b).dom()),
    ensures
        distinct_slots(a + b),
        all_valid(a + b),
        entries(a + b) == entries(a).union_prefer_right(entries(b)),
    decreases b.len(),
{
    entries_of_items(a);
    entries_of_items(b);
    if b.len() == 0 {
        assert(a + b =~= a);
        assert(entries(a).union_prefer_right(entries(b)) =~= entries(a));
    } else {
        let front = b.drop_last();
        let last = b.last();
        entries_of_items(front);
        assert(distinct_slots(front)) by {
            assert forall|i: int, j: int| 0 <= i < j < front.len() implies (#[trigger] front[i]).0
                != (#[trigger] front[j]).0 by {
                assert(b[i].0 != b[j].0);
            }
        }
        assert(all_valid(front)) by {
            assert forall|i: int| 0 <= i < front.len() implies (#[trigger] front[i]).1.is_valid() by {
                assert(b[i].1.is_valid());
            }
        }
        assert(entries(a).dom().disjoint(entries(front).dom())) by {
            assert forall|k: usize| entries(a).dom().contains(k) implies !entries(
                front,
            ).dom().contains(k) by {
                if entries(front).contains_key(k) {
                    let i = choose|i: int| 0 <= i < front.len() && (#[trigger] front[i]).0 == k;
                    assert(b[i].0 == k);
                    assert(has_slot(b, k));
                    assert(entries(b).dom().contains(k));
                }
            }
        }
        entries_of_concat(a, front);
        entries_of_items(a + front);
        assert(!has_slot(a + front, last.0)) by {
            if has_slot(a + front, last.0) {
                let i = choose|i: int|
                    0 <= i < (a + front).len() && (#[trigger] (a + front)[i]).0 == last.0;
                if i < a.len() {
                    assert(a[i].0 == last.0);
                    assert(has_slot(a, last.0));
                    assert(b[b.len() - 1].0 == last.0);
                    assert(has_slot(b, last.0));
                    assert(entries(a).dom().contains(last.0));
                    assert(entries(b).dom().contains(last.0));
                } else {
                    assert(b[i - a.len()].0 != b[b.len() - 1].0);
                }
            }
        }
        assert(last.1.is_valid()) by {
            assert(b[b.len() - 1].1.is_valid());
        }
        entries_after_push(a + front, last);
        assert((a + front).push(last) =~= a + b);
        assert(entries(a + b) =~= entries(a).union_prefer_right(entries(b)));
    }
}

/// Appends the leaves of a tree to `out`, from left to right.
pub fn collect(node: Box<Node>, out: &mut Vec<(usize, Aabb)>)
    ensures
        final(out)@ == old(out)@ + leaf_seq(*node),
    decreases node,
{
    match *node {
        Node::Leaf { slot, aabb } => {
            out.push((slot, aabb));
            assert(out@ =~= old(out)@ + leaf_seq(*node));
        },
        Node::Branch { aabb: _, height: _, left, right } => {
            collect(left, out);
            collect(right, out);
            assert(out@ =~= old(out)@ + leaf_seq(*node));
        },
    }
}

/// The two parts hold the items of `items` between them: no slot twice, no
/// slot in both, and together the same map.
pub open spec fn is_split(
    lo: Seq<(usize, Aabb)>,
    hi: Seq<(usize, Aabb)>,
    items: Seq<(usize, Aabb)>,
) -> bool {
    &&& lo.len() + hi.len() == items.len()
    &&& distinct_slots(lo)
    &&& distinct_slots(hi)
    &&& all_valid(lo)
    &&& all_valid(hi)
    &&& entries(lo).dom().disjoint(entries(hi).dom())
    &&& entries(lo).union_prefer_right(entries(hi)) == entries(items)
}

/// The hull of the boxes of all items.
pub open spec fn hull_of_all(items: Seq<(usize, Aabb)>) -> Aabb
    decreases items.len(),
{
    if items.len() == 0 {
        Aabb::empty()
    } else {
        hull_of_all(items.drop_last()).hull(items.last().1)
    }
}

fn hull_of(items: &Vec<(usize, Aabb)>) -> (h: Aabb)
    ensures
        h == hull_of_all(items@),
{
    let mut h = Aabb::new_invalid();
    let mut i: usize = 0;
    while i < items.len()
        invariant
            i <= items.len(),
            h == hull_of_all(items@.take(i as int)),
        decreases items.len() - i,
    {
        assert(items@.take(i + 1).drop_last() =~= items@.take(i as int));
        h = h.merged(&items[i].1);
        i += 1;
    }
    assert(items@.take(i as int) =~= items@);
    h
}

/// Twice the middle of a box along one axis.
pub open spec fn twice_the_middle(aabb: Aabb, along_x: bool) -> int {
    if along_x {
        aabb.mins.x + aabb.maxs.x
    } else {
        aabb.mins.y + aabb.maxs.y
    }
}

/// Along the axis, every box of `lo` has its middle below the pivot and
/// every box of `hi` has it at the pivot or above.
pub open spec fn parted(
    lo: Map<usize, Aabb>,
    hi: Map<usize, Aabb>,
    along_x: bool,
    pivot: int,
) -> bool {
    &&& forall|s: usize| #[trigger] lo.contains_key(s) ==> twice_the_middle(lo[s], along_x) < pivot
    &&& forall|s: usize| #[trigger]
        hi.contains_key(s) ==> twice_the_middle(hi[s], along_x) >= pivot
}

/// The same of two sequences of items.
pub open spec fn parted_items(
    lo: Seq<(usize, Aabb)>,
    hi: Seq<(usize, Aabb)>,
    along_x: bool,
    pivot: int,
) -> bool {
    &&& forall|j: int|
        0 <= j < lo.len() ==> twice_the_middle((#[trigger] lo[j]).1, along_x) < pivot
    &&& forall|j: int|
        0 <= j < hi.len() ==> twice_the_middle((#[trigger] hi[j]).1, along_x) >= pivot
}

/// The number of leaves of a tree.
pub open spec fn leaf_count(node: Node) -> nat
    decreases node,
{
    match node {
        Node::Leaf { .. } => 1,
        Node::Branch { left, right, .. } => leaf_count(*left) + leaf_count(*right),
    }
}

/// What a rebuild leaves behind: every branch either parts its leaves along
/// an axis, the left ones below a pivot and the right ones not, or holds
/// half of them, rounded down, on its left.
pub open spec fn well_split(node: Node) -> bool
    decreases node,
{
    match node {
        Node::Leaf { .. } => true,
        Node::Branch { left, right, .. } => {
            &&& well_split(*left)
            &&& well_split(*right)
            &&& {
                ||| exists|along_x: bool, pivot: int|
                    parted(left.leaves(), right.leaves(), along_x, pivot)
                ||| leaf_count(*left) == (leaf_count(*left) + leaf_count(*right)) / 2
            }
        },
    }
}

/// Items that are parted make maps that are parted.
pub proof fn parted_items_make_parted_maps(
    lo: Seq<(usize, Aabb)>,
    hi: Seq<(usize, Aabb)>,
    along_x: bool,
    pivot: int,
)
    requires
        distinct_slots(lo),
        distinct_slots(hi),
        parted_items(lo, hi, along_x, pivot),
    ensures
        parted(entries(lo), entries(hi), along_x, pivot),
{
    entries_of_items(lo);
    entries_of_items(hi);
    assert forall|s: usize| #[trigger] entries(lo).contains_key(s) implies twice_the_middle(
        entries(lo)[s],
        along_x,
    ) < pivot by {
        let j = choose|j: int| 0 <= j < lo.len() && (#[trigger] lo[j]).0 == s;
        assert(entries(lo)[lo[j].0] == lo[j].1);
    }
    assert forall|s: usize| #[trigger] entries(hi).contains_key(s) implies twice_the_middle(
        entries(hi)[s],
        along_x,
    ) >= pivot by {
        let j = choose|j: int| 0 <= j < hi.len() && (#[trigger] hi[j]).0 == s;
        assert(entries(hi)[hi[j].0] == hi[j].1);
    }
}

fn middle_twice(aabb: &Aabb, along_x: bool) -> (m: i64)
    ensures
        m == twice_the_middle(*aabb, along_x),
{
    if along_x {
        aabb.mins.x as i64 + aabb.maxs.x as i64
    } else {
        aabb.mins.y as i64 + aabb.maxs.y as i64
    }
}

/// Deals the items into two parts. By place, the first `half` items go to
/// the first part; otherwise an item goes there when its middle along the
/// chosen axis lies below `pivot`.
fn deal(items: &Vec<(usize, Aabb)>, by_place: bool, half: usize, along_x: bool, pivot: i64) -> (r: (
    Vec<(usize, Aabb)>,
    Vec<(usize, Aabb)>,
))
    requires
        distinct_slots(items@),
        all_valid(items@),
    ensures
        is_split(r.0@, r.1@, items@),
        by_place && half <= items.len() ==> r.0.len() == half,
        !by_place ==> parted_items(r.0@, r.1@, along_x, pivot as int),
{
    let mut lo: Vec<(usize, Aabb)> = Vec::new();
    let mut hi: Vec<(usize, Aabb)> = Vec::new();
    let ghost mut lo_from: Seq<int> = Seq::empty();
    let ghost mut hi_from: Seq<int> = Seq::empty();
    let ghost mut to_lo: Seq<bool> = Seq::empty();
    let ghost mut place: Seq<int> = Seq::empty();
    let mut i: usize = 0;
    while i < items.len()
        invariant
            i <= items.len(),
            distinct_slots(items@),
            all_valid(items@),
            lo.len() + hi.len() == i,
            !by_place ==> parted_items(lo@, hi@, along_x, pivot as int),
            by_place && half <= items.len() ==> lo.len() == (if i <= half {
                i
            } else {
                half
            }),
            lo_from.len() == lo.len(),
            hi_from.len() == hi.len(),
            to_lo.len() == i,
            place.len() == i,
            forall|j: int|
                0 <= j < lo.len() ==> 0 <= #[trigger] lo_from[j] < i && lo@[j] == items@[lo_from[j]],
            forall|j: int|
                0 <= j < hi.len() ==> 0 <= #[trigger] hi_from[j] < i && hi@[j] == items@[hi_from[j]],
            forall|k: int|
                0 <= k < i ==> if #[trigger] to_lo[k] {
                    0 <= place[k] < lo.len() && lo@[place[k]] == items@[k]
                } else {
                    0 <= place[k] < hi.len() && hi@[place[k]] == items@[k]
                },
            distinct_slots(lo@),
            distinct_slots(hi@),
            all_valid(lo@),
            all_valid(hi@),
            forall|a: int, b: int|
                0 <= a < lo.len() && 0 <= b < hi.len() ==> (#[trigger] lo@[a]).0 != (
                #[trigger] hi@[b]).0,
        decreases items.len() - i,
    {
        let item = items[i];
        let first = if by_place {
            i < half
        } else {
            middle_twice(&item.1, along_x) < pivot
        };
        proof {
            assert(items@[i as int].1.is_valid());
            assert(!has_slot(lo@, item.0)) by {
                if has_slot(lo@, item.0) {
                    let j = choose|j: int| 0 <= j < lo.len() && (#[trigger] lo@[j]).0 == item.0;
                    assert(items@[lo_from[j]].0 != items@[i as int].0);
                }
            }
            assert(!has_slot(hi@, item.0)) by {
                if has_slot(hi@, item.0) {
                    let j = choose|j: int| 0 <= j < hi.len() && (#[trigger] hi@[j]).0 == item.0;
                    assert(items@[hi_from[j]].0 != items@[i as int].0);
                }
            }
        }
        if first {
            proof {
                entries_after_push(lo@, item);
                lo_from = lo_from.push(i as int);
                to_lo = to_lo.push(true);
                place = place.push(lo.len() as int);
            }
            lo.push(item);
            proof {
                assert forall|a: int, b: int| 0 <= a < lo.len() && 0 <= b < hi.len() implies (
                #[trigger] lo@[a]).0 != (#[trigger] hi@[b]).0 by {
                    if a == lo.len() - 1 {
                        assert(hi@[b].0 == item.0 ==> has_slot(hi@, item.0));
                    }
                }
            }
        } else {
            proof {
                entries_after_push(hi@, item);
                hi_from = hi_from.push(i as int);
                to_lo = to_lo.push(false);
                place = place.push(hi.len() as int);
            }
            hi.push(item);
            proof {
                assert forall|a: int, b: int| 0 <= a < lo.len() && 0 <= b < hi.len() implies (
                #[trigger] lo@[a]).0 != (#[trigger] hi@[b]).0 by {
                    if b == hi.len() - 1 {
                        assert(lo@[a].0 == item.0 ==> has_slot(lo@, item.0));
                    }
                }
            }
        }
        i += 1;
    }
    proof {
        entries_of_items(lo@);
        entries_of_items(hi@);
        entries_of_items(items@);
        assert(entries(lo@).dom().disjoint(entries(hi@).dom())) by {
            assert forall|k: usize| entries(lo@).dom().contains(k) implies !entries(
                hi@,
            ).dom().contains(k) by {
                if entries(hi@).contains_key(k) {
                    let a = choose|a: int| 0 <= a < lo.len() && (#[trigger] lo@[a]).0 == k;
                    let b = choose|b: int| 0 <= b < hi.len() && (#[trigger] hi@[b]).0 == k;
                    assert(lo@[a].0 != hi@[b].0);
                }
            }
        }
        let both = entries(lo@).union_prefer_right(entries(hi@));
        assert forall|k: usize| both.contains_key(k) <==> entries(items@).contains_key(k) by {
            if entries(lo@).contains_key(k) {
                let a = choose|a: int| 0 <= a < lo.len() && (#[trigger] lo@[a]).0 == k;
                assert(items@[lo_from[a]].0 == k);
            }
            if entries(hi@).contains_key(k) {
                let b = choose|b: int| 0 <= b < hi.len() && (#[trigger] hi@[b]).0 == k;
                assert(items@[hi_from[b]].0 == k);
            }
            if entries(items@).contains_key(k) {
                let c = choose|c: int| 0 <= c < items.len() && (#[trigger] items@[c]).0 == k;
                if to_lo[c] {
                    assert(lo@[place[c]].0 == k);
                } else {
                    assert(hi@[place[c]].0 == k);
                }
            }
        }
        assert forall|k: usize| both.contains_key(k) implies both[k] == entries(items@)[k] by {
            let c = choose|c: int| 0 <= c < items.len() && (#[trigger] items@[c]).0 == k;
            assert(entries(items@)[items@[c].0] == items@[c].1);
            if to_lo[c] {
                assert(entries(lo@)[(lo@[place[c]]).0] == lo@[place[c]].1);
                assert(has_slot(lo@, k));
            } else {
                assert(entries(hi@)[(hi@[place[c]]).0] == hi@[place[c]].1);
                assert(has_slot(hi@, k));
            }
        }
        assert(both =~= entries(items@));
    }
    (lo, hi)
}

/// Splits two or more items into two parts, neither of them empty.
fn split(items: &Vec<(usize, Aabb)>) -> (r: (Vec<(usize, Aabb)>, Vec<(usize, Aabb)>))
    requires
        items.len() >= 2,
        distinct_slots(items@),
        all_valid(items@),
    ensures
        is_split(r.0@, r.1@, items@),
        r.0.len() >= 1,
        r.1.len() >= 1,
        (exists|along_x: bool, pivot: int| parted_items(r.0@, r.1@, along_x, pivot)) || r.0.len()
            == items.len() / 2,
{
    let all = hull_of(items);
    let width: i64 = all.maxs.x as i64 - all.mins.x as i64;
    let height: i64 = all.maxs.y as i64 - all.mins.y as i64;
    let along_x = width >= height;
    let pivot = middle_twice(&all, along_x);
    let (lo, hi) = deal(items, false, 0, along_x, pivot);
    if lo.len() >= 1 && hi.len() >= 1 {
        (lo, hi)
    } else {
        deal(items, true, items.len() / 2, along_x, pivot)
    }
}

/// Builds a tree over the items: well-formed, well split, with one leaf for
/// each item.
pub fn build(items: Vec<(usize, Aabb)>) -> (r: Box<Node>)
    requires
        items.len() >= 1,
        distinct_slots(items@),
        all_valid(items@),
    ensures
        r.wf(),
        r.leaves() == entries(items@),
        leaf_count(*r) == items.len(),
        well_split(*r),
    decreases items.len(),
{
    if items.len() == 1 {
        let item = items[0];
        let r = Box::new(Node::Leaf { slot: item.0, aabb: item.1 });
        proof {
            assert(items@[0].1.is_valid());
            assert(items@.drop_last() =~= Seq::<(usize, Aabb)>::empty());
            assert(entries(items@.drop_last()) =~= Map::<usize, Aabb>::empty());
            assert(r.leaves() =~= entries(items@));
        }
        r
    } else {
        let (lo, hi) = split(&items);
        proof {
            if exists|along_x: bool, pivot: int| parted_items(lo@, hi@, along_x, pivot) {
                let (along_x, pivot) = choose|along_x: bool, pivot: int|
                    parted_items(lo@, hi@, along_x, pivot);
                parted_items_make_parted_maps(lo@, hi@, along_x, pivot);
            }
        }
        let left = build(lo);
        let right = build(hi);
        join(left, right)
    }
}

} // verus!
