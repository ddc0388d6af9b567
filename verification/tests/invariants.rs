use spatial_index::geometry::{Aabb, Point};
use spatial_index::handle_table::HandleTable;
use spatial_index::hierarchy::Hierarchy;
use spatial_index::index::IndexService;
use spatial_index::node::{bounds_of, Node};

fn at(x: i32, y: i32) -> Aabb {
    Aabb::from_point(Point::new(x, y))
}

fn next(seed: &mut u64, below: u64) -> u64 {
    *seed = seed.wrapping_mul(6364136223846793005).wrapping_add(1442695040888963407);
    (*seed >> 33) % below
}

/// The slots below `node`; fails where a branch does not hold the hull of
/// its children.
fn checked_slots(node: &Node, out: &mut Vec<usize>) {
    match node {
        Node::Leaf { slot, aabb } => {
            assert!(aabb.valid());
            out.push(*slot);
        }
        Node::Branch { aabb, left, right, .. } => {
            assert_eq!(*aabb, bounds_of(left).merged(&bounds_of(right)));
            let from = out.len();
            checked_slots(left, out);
            checked_slots(right, out);
            assert!(out.len() - from >= 2);
        }
    }
}

/// Fails where the box of a node does not cover the grown box of an entity
/// whose leaf lies below it.
fn check_cover(node: &Node, table: &HandleTable, margin: u32) {
    let mut below = Vec::new();
    checked_slots(node, &mut below);
    for slot in below {
        let (_, aabb) = table.lookup(slot).expect("a leaf stands for a live slot");
        assert!(bounds_of(node).contains(&aabb.loosened(margin)));
        assert!(bounds_of(node).contains(&aabb));
    }
    if let Node::Branch { left, right, .. } = node {
        check_cover(left, table, margin);
        check_cover(right, table, margin);
    }
}

fn shape(node: &Node) -> String {
    match node {
        Node::Leaf { slot, .. } => format!("{}", slot),
        Node::Branch { left, right, .. } => format!("({} {})", shape(left), shape(right)),
    }
}

fn shape_of(h: &Hierarchy) -> String {
    match h.top() {
        Some(node) => shape(node),
        None => String::new(),
    }
}

#[test]
fn every_node_covers_what_lies_below_it_after_maintain() {
    let mut seed: u64 = 99;
    let mut ix = IndexService::new(3);
    let mut round = 0;
    while round < 25 {
        let mut k = 0;
        while k < 30 {
            let e = next(&mut seed, 120) as u128;
            if next(&mut seed, 4) == 0 {
                ix.remove(e);
            } else {
                let x = next(&mut seed, 400) as i32 - 200;
                let y = next(&mut seed, 400) as i32 - 200;
                ix.upsert(e, at(x, y));
            }
            k += 1;
        }
        ix.maintain();
        match ix.hierarchy().top() {
            Some(node) => {
                check_cover(node, ix.handle_table(), 3);
                let mut slots = Vec::new();
                checked_slots(node, &mut slots);
                slots.sort();
                let before = slots.len();
                slots.dedup();
                assert_eq!(slots.len(), before);
                assert_eq!(slots.len(), ix.len());
            }
            None => assert_eq!(ix.len(), 0),
        }
        round += 1;
    }
}

#[test]
fn every_tracked_entity_resolves_through_its_slot() {
    let mut seed: u64 = 7;
    let mut ix = IndexService::new(0);
    let mut expect: Vec<Option<Aabb>> = vec![None; 60];
    let mut step = 0;
    while step < 2000 {
        let e = next(&mut seed, 60) as usize;
        if next(&mut seed, 3) == 0 {
            let slot = ix.handle_table().slot_of(e as u128);
            ix.remove(e as u128);
            expect[e] = None;
            assert_eq!(ix.handle_table().slot_of(e as u128), None);
            if let Some(slot) = slot {
                assert_eq!(ix.handle_table().lookup(slot), None);
                assert_eq!(ix.hierarchy().stored_box(slot), None);
            }
        } else {
            let b = at(next(&mut seed, 50) as i32, next(&mut seed, 50) as i32);
            ix.upsert(e as u128, b);
            expect[e] = Some(b);
            let slot = ix.handle_table().slot_of(e as u128).expect("an upserted entity has a slot");
            assert_eq!(ix.handle_table().lookup(slot), Some((e as u128, b)));
        }
        if step % 97 == 0 {
            ix.maintain();
        }
        let mut other = 0;
        while other < 60 {
            match ix.handle_table().slot_of(other as u128) {
                Some(slot) => {
                    assert_eq!(
                        ix.handle_table().lookup(slot),
                        Some((other as u128, expect[other].expect("a slot means a box")))
                    );
                }
                None => assert_eq!(expect[other], None),
            }
            other += 1;
        }
        step += 1;
    }
}

#[test]
fn a_refit_that_only_moves_leaves_keeps_the_shape_of_the_tree() {
    let mut t = HandleTable::new();
    let mut h = Hierarchy::new();
    let mut slots = Vec::new();
    let mut e: u128 = 0;
    while e < 40 {
        let s = t.insert(e);
        t.set_box(s, at(e as i32 * 5, 0));
        h.mark_dirty(s);
        slots.push(s);
        e += 1;
    }
    h.refit(0, &t);
    h.rebalance();
    let before = shape_of(&h);
    let mut k = 0;
    while k < 40 {
        t.set_box(slots[k], at(1000 - k as i32 * 7, k as i32));
        h.mark_dirty(slots[k]);
        k += 3;
    }
    h.refit(0, &t);
    assert_eq!(shape_of(&h), before);
    assert_eq!(h.stored_box(slots[3]), Some(at(1000 - 21, 3)));
    assert_eq!(h.stored_box(slots[4]), Some(at(20, 0)));
    let mut out = Vec::new();
    h.query_overlapping(&at(1000 - 21, 3), &mut out);
    assert_eq!(out, vec![slots[3]]);
    h.rebalance();
    assert_ne!(shape_of(&h), before);
}

#[test]
fn a_second_identical_upsert_leaves_the_tree_as_it_is() {
    let mut ix = IndexService::new(1);
    let mut e: u128 = 0;
    while e < 30 {
        ix.upsert(e, at(e as i32, (e * e % 17) as i32));
        e += 1;
    }
    ix.maintain();
    let before = shape_of(ix.hierarchy());
    let mut e: u128 = 0;
    while e < 30 {
        ix.upsert(e, at(e as i32, (e * e % 17) as i32));
        assert!(!ix.is_pending(e));
        e += 1;
    }
    assert_eq!(shape_of(ix.hierarchy()), before);
    ix.maintain();
    assert_eq!(ix.len(), 30);
}

fn middles(node: &Node, along_x: bool, out: &mut Vec<i64>) {
    match node {
        Node::Leaf { aabb, .. } => {
            if along_x {
                out.push(aabb.mins.x as i64 + aabb.maxs.x as i64);
            } else {
                out.push(aabb.mins.y as i64 + aabb.maxs.y as i64);
            }
        }
        Node::Branch { left, right, .. } => {
            middles(left, along_x, out);
            middles(right, along_x, out);
        }
    }
}

fn parts_along(left: &Node, right: &Node, along_x: bool) -> bool {
    let mut lo = Vec::new();
    let mut hi = Vec::new();
    middles(left, along_x, &mut lo);
    middles(right, along_x, &mut hi);
    lo.iter().max().unwrap() < hi.iter().min().unwrap()
}

fn is_well_split(node: &Node) -> bool {
    match node {
        Node::Leaf { .. } => true,
        Node::Branch { left, right, .. } => {
            let mut l = Vec::new();
            let mut r = Vec::new();
            checked_slots(left, &mut l);
            checked_slots(right, &mut r);
            is_well_split(left)
                && is_well_split(right)
                && (parts_along(left, right, true)
                    || parts_along(left, right, false)
                    || l.len() == (l.len() + r.len()) / 2)
        }
    }
}

#[test]
fn maintain_leaves_a_tree_that_parts_or_halves_at_every_branch() {
    let mut seed: u64 = 4242;
    let mut ix = IndexService::new(1);
    let mut round = 0;
    while round < 20 {
        let mut k = 0;
        while k < 50 {
            let e = next(&mut seed, 150) as u128;
            if next(&mut seed, 5) == 0 {
                ix.remove(e);
            } else {
                let x = next(&mut seed, 60) as i32;
                let y = next(&mut seed, 9) as i32;
                ix.upsert(e, at(x, y));
            }
            k += 1;
        }
        ix.maintain();
        if let Some(node) = ix.hierarchy().top() {
            assert!(is_well_split(node));
        }
        round += 1;
    }
}

#[test]
fn leaves_attached_one_by_one_need_a_rebalance_to_be_parted() {
    let mut t = HandleTable::new();
    let mut h = Hierarchy::new();
    let mut e: u128 = 0;
    while e < 64 {
        let s = t.insert(e);
        t.set_box(s, at(((e * 37) % 64) as i32, 0));
        h.mark_dirty(s);
        e += 1;
    }
    h.refit(0, &t);
    assert!(!is_well_split(h.top().unwrap()));
    h.rebalance();
    assert!(is_well_split(h.top().unwrap()));
}
