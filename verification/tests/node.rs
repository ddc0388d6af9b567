use spatial_index::geometry::{Aabb, Point};
use spatial_index::node::{
    bounds_of, detach_leaf, height_of, insert_leaf, join, search, update_leaf, Node,
};
use spatial_index::rebuild::{build, collect};

fn at(x: i32, y: i32) -> Aabb {
    Aabb::from_point(Point::new(x, y))
}

fn rect(x0: i32, y0: i32, x1: i32, y1: i32) -> Aabb {
    Aabb::new(Point::new(x0, y0), Point::new(x1, y1))
}

fn leaf(slot: usize, aabb: Aabb) -> Box<Node> {
    Box::new(Node::Leaf { slot, aabb })
}

fn hits(node: &Node, q: &Aabb) -> Vec<usize> {
    let mut out = Vec::new();
    search(node, q, &mut out);
    out
}

fn holds_hulls(node: &Node) -> bool {
    match node {
        Node::Leaf { aabb, .. } => aabb.valid(),
        Node::Branch { aabb, left, right, .. } => {
            holds_hulls(left)
                && holds_hulls(right)
                && *aabb == bounds_of(left).merged(&bounds_of(right))
        }
    }
}

fn depth(node: &Node) -> usize {
    match node {
        Node::Leaf { .. } => 1,
        Node::Branch { left, right, .. } => 1 + depth(left).max(depth(right)),
    }
}

#[test]
fn a_branch_holds_the_hull_of_its_children() {
    let t = insert_leaf(leaf(0, at(0, 0)), 1, at(4, 2));
    assert_eq!(bounds_of(&t), rect(0, 0, 4, 2));
    let t = insert_leaf(t, 2, at(-3, 9));
    assert_eq!(bounds_of(&t), rect(-3, 0, 4, 9));
    assert!(holds_hulls(&t));
}

#[test]
fn a_new_leaf_goes_to_the_side_that_grows_less() {
    let t = insert_leaf(leaf(0, at(0, 0)), 1, at(100, 0));
    let t = insert_leaf(t, 2, at(99, 0));
    match &*t {
        Node::Branch { left, right, .. } => {
            assert_eq!(bounds_of(left), at(0, 0));
            assert_eq!(bounds_of(right), rect(99, 0, 100, 0));
        }
        Node::Leaf { .. } => panic!("a tree of three leaves has a branch at its root"),
    }
}

#[test]
fn search_reports_hits_from_left_to_right() {
    let t = insert_leaf(leaf(0, at(0, 0)), 1, at(100, 0));
    let t = insert_leaf(t, 2, at(99, 0));
    assert_eq!(hits(&t, &rect(-1, -1, 200, 1)), vec![0, 1, 2]);
    assert_eq!(hits(&t, &rect(50, -1, 99, 1)), vec![2]);
    assert_eq!(hits(&t, &rect(1, 0, 98, 0)), Vec::<usize>::new());
}

#[test]
fn detach_shrinks_the_boxes_above() {
    let t = insert_leaf(leaf(0, at(0, 0)), 1, at(100, 0));
    let t = insert_leaf(t, 2, at(99, 0));
    let (rest, found) = detach_leaf(t, 1, &at(100, 0));
    assert!(found);
    let rest = rest.unwrap();
    assert_eq!(bounds_of(&rest), rect(0, 0, 99, 0));
    assert!(holds_hulls(&rest));
    assert_eq!(hits(&rest, &rect(-1, -1, 200, 1)), vec![0, 2]);
}

#[test]
fn detach_of_the_only_leaf_leaves_no_tree() {
    let (rest, found) = detach_leaf(leaf(4, at(1, 1)), 4, &at(1, 1));
    assert!(found);
    assert!(rest.is_none());
}

#[test]
fn detach_of_a_slot_that_is_not_there_keeps_the_tree() {
    let t = insert_leaf(leaf(0, at(0, 0)), 1, at(5, 5));
    let (rest, found) = detach_leaf(t, 9, &at(2, 2));
    assert!(!found);
    assert_eq!(hits(&rest.unwrap(), &rect(0, 0, 5, 5)), vec![0, 1]);
}

#[test]
fn update_keeps_the_shape_and_recomputes_the_boxes() {
    let t = insert_leaf(leaf(0, at(0, 0)), 1, at(100, 0));
    let t = insert_leaf(t, 2, at(99, 0));
    let (t, found) = update_leaf(t, 2, &at(99, 0), at(99, 50));
    assert!(found);
    assert_eq!(bounds_of(&t), rect(0, 0, 100, 50));
    assert!(holds_hulls(&t));
    assert_eq!(hits(&t, &rect(-1, -1, 200, 60)), vec![0, 1, 2]);
    let (t, found) = update_leaf(t, 7, &at(99, 0), at(1, 1));
    assert!(!found);
    assert_eq!(bounds_of(&t), rect(0, 0, 100, 50));
}

#[test]
fn collect_lists_the_leaves_from_left_to_right() {
    let t = insert_leaf(leaf(0, at(0, 0)), 1, at(100, 0));
    let t = insert_leaf(t, 2, at(99, 0));
    let mut out = vec![(9, at(9, 9))];
    collect(t, &mut out);
    assert_eq!(out, vec![(9, at(9, 9)), (0, at(0, 0)), (1, at(100, 0)), (2, at(99, 0))]);
}

#[test]
fn build_splits_around_the_middle_of_the_wider_axis() {
    let t = build(vec![(0, at(0, 0)), (1, at(10, 1)), (2, at(1, 1)), (3, at(9, 0))]);
    assert!(holds_hulls(&t));
    assert_eq!(bounds_of(&t), rect(0, 0, 10, 1));
    match &*t {
        Node::Branch { left, right, .. } => {
            assert_eq!(bounds_of(left), rect(0, 0, 1, 1));
            assert_eq!(bounds_of(right), rect(9, 0, 10, 1));
        }
        Node::Leaf { .. } => panic!("a tree of four leaves has a branch at its root"),
    }
    assert_eq!(hits(&t, &rect(0, 0, 10, 1)), vec![0, 2, 3, 1]);
}

#[test]
fn build_over_one_item_is_a_leaf() {
    let t = build(vec![(5, rect(1, 2, 3, 4))]);
    match &*t {
        Node::Leaf { slot, aabb } => {
            assert_eq!(*slot, 5);
            assert_eq!(*aabb, rect(1, 2, 3, 4));
        }
        Node::Branch { .. } => panic!("one item makes one leaf"),
    }
}

#[test]
fn build_halves_items_that_share_one_middle() {
    let mut items = Vec::new();
    let mut s: usize = 0;
    while s < 64 {
        items.push((s, at(3, 3)));
        s += 1;
    }
    let t = build(items);
    assert!(holds_hulls(&t));
    assert_eq!(depth(&t), 7);
    assert_eq!(hits(&t, &at(3, 3)).len(), 64);
}

#[test]
fn a_built_tree_over_a_line_of_points_is_shallow() {
    let mut items = Vec::new();
    let mut s: usize = 0;
    while s < 1024 {
        items.push((s, at(s as i32, 0)));
        s += 1;
    }
    let t = build(items);
    assert!(holds_hulls(&t));
    assert!(depth(&t) <= 12);
    assert_eq!(hits(&t, &rect(100, 0, 103, 0)), vec![100, 101, 102, 103]);
}

#[test]
fn join_holds_the_hull_and_counts_the_height() {
    let t = join(leaf(0, at(0, 0)), leaf(1, at(2, 5)));
    assert_eq!(bounds_of(&t), rect(0, 0, 2, 5));
    assert_eq!(height_of(&t), 1);
    let t = join(t, leaf(2, at(-1, -1)));
    assert_eq!(bounds_of(&t), rect(-1, -1, 2, 5));
    assert_eq!(height_of(&t), 2);
    assert_eq!(height_of(&leaf(3, at(0, 0))), 0);
}

#[test]
fn leaves_attached_along_a_line_make_a_shallow_tree() {
    let mut t = leaf(0, at(0, 0));
    let mut s: usize = 1;
    while s < 3000 {
        t = insert_leaf(t, s, at(s as i32, 0));
        s += 1;
    }
    assert!(holds_hulls(&t));
    assert!(depth(&t) <= 18);
    assert_eq!(depth(&t), height_of(&t) as usize + 1);
    assert_eq!(hits(&t, &rect(10, 0, 12, 0)).len(), 3);
}

#[test]
fn leaves_attached_at_one_point_make_a_shallow_tree() {
    let mut t = leaf(0, at(5, 5));
    let mut s: usize = 1;
    while s < 3000 {
        t = insert_leaf(t, s, at(5, 5));
        s += 1;
    }
    assert!(depth(&t) <= 18);
    assert_eq!(hits(&t, &at(5, 5)).len(), 3000);
}

#[test]
fn a_tree_stays_shallow_while_leaves_come_and_go() {
    let mut t = leaf(0, at(0, 0));
    let mut next: usize = 1;
    let mut round = 0;
    while round < 20 {
        let first = next;
        while next < first + 200 {
            t = insert_leaf(t, next, at(next as i32, 0));
            next += 1;
        }
        let mut s = first;
        while s < first + 150 {
            let (rest, found) = detach_leaf(t, s, &at(s as i32, 0));
            assert!(found);
            t = rest.unwrap();
            s += 1;
        }
        round += 1;
    }
    assert!(holds_hulls(&t));
    assert_eq!(hits(&t, &rect(0, 0, 5000, 0)).len(), 1 + 20 * 50);
    assert!(depth(&t) <= 24);
}
