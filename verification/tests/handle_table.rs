use spatial_index::geometry::{Aabb, Point};
use spatial_index::handle_table::HandleTable;

fn at(x: i32, y: i32) -> Aabb {
    Aabb::from_point(Point::new(x, y))
}

#[test]
fn insert_gives_an_unknown_entity_a_slot_with_an_empty_box() {
    let mut t = HandleTable::new();
    let s = t.insert(10);
    assert_eq!(t.slot_of(10), Some(s));
    assert_eq!(t.lookup(s), Some((10, Aabb::new_invalid())));
    assert_eq!(t.len(), 1);
}

#[test]
fn insert_is_idempotent() {
    let mut t = HandleTable::new();
    let s = t.insert(10);
    t.set_box(s, at(1, 2));
    assert_eq!(t.insert(10), s);
    assert_eq!(t.lookup(s), Some((10, at(1, 2))));
    assert_eq!(t.len(), 1);
}

#[test]
fn distinct_entities_get_distinct_slots() {
    let mut t = HandleTable::new();
    let a = t.insert(1);
    let b = t.insert(2);
    let c = t.insert(3);
    assert_ne!(a, b);
    assert_ne!(a, c);
    assert_ne!(b, c);
    assert_eq!(t.lookup(a).map(|l| l.0), Some(1));
    assert_eq!(t.lookup(b).map(|l| l.0), Some(2));
    assert_eq!(t.lookup(c).map(|l| l.0), Some(3));
}

#[test]
fn remove_frees_the_slot_in_both_directions() {
    let mut t = HandleTable::new();
    let s = t.insert(10);
    assert_eq!(t.remove(10), Some(s));
    assert_eq!(t.slot_of(10), None);
    assert_eq!(t.lookup(s), None);
    assert_eq!(t.len(), 0);
}

#[test]
fn remove_of_an_unknown_entity_is_none() {
    let mut t = HandleTable::new();
    t.insert(1);
    assert_eq!(t.remove(2), None);
    assert_eq!(t.len(), 1);
    assert_eq!(t.remove(1).is_some(), true);
    assert_eq!(t.remove(1), None);
}

#[test]
fn a_freed_slot_never_resolves_to_the_old_entity() {
    let mut t = HandleTable::new();
    let s = t.insert(1);
    t.set_box(s, at(5, 5));
    t.remove(1);
    let s2 = t.insert(2);
    match t.lookup(s) {
        None => {}
        Some((entity, aabb)) => {
            assert_eq!(s2, s);
            assert_eq!(entity, 2);
            assert_eq!(aabb, Aabb::new_invalid());
        }
    }
    assert_eq!(t.slot_of(1), None);
}

#[test]
fn set_box_overwrites_the_box_of_a_live_slot() {
    let mut t = HandleTable::new();
    let s = t.insert(7);
    t.set_box(s, at(1, 1));
    assert_eq!(t.box_of(s), at(1, 1));
    t.set_box(s, at(2, 3));
    assert_eq!(t.lookup(s), Some((7, at(2, 3))));
}

#[test]
fn set_box_on_a_free_slot_does_nothing() {
    let mut t = HandleTable::new();
    let s = t.insert(7);
    t.remove(7);
    t.set_box(s, at(1, 1));
    t.set_box(12345, at(1, 1));
    assert_eq!(t.lookup(s), None);
    assert_eq!(t.lookup(12345), None);
    assert_eq!(t.len(), 0);
}

#[test]
fn box_of_a_free_slot_is_the_empty_box() {
    let t = HandleTable::new();
    assert_eq!(t.box_of(0), Aabb::new_invalid());
    assert_eq!(t.box_of(usize::MAX), Aabb::new_invalid());
}

#[test]
fn lookup_of_the_slot_of_every_tracked_entity_gives_it_back() {
    let mut t = HandleTable::new();
    let mut e: u128 = 0;
    while e < 50 {
        let s = t.insert(e);
        t.set_box(s, at(e as i32, -(e as i32)));
        e += 1;
    }
    let mut e: u128 = 0;
    while e < 50 {
        if e % 3 == 0 {
            t.remove(e);
        }
        e += 1;
    }
    let mut e: u128 = 100;
    while e < 120 {
        let s = t.insert(e);
        t.set_box(s, at(e as i32, 0));
        e += 1;
    }
    let mut e: u128 = 0;
    while e < 120 {
        match t.slot_of(e) {
            Some(s) => {
                let expect = if e >= 100 { at(e as i32, 0) } else { at(e as i32, -(e as i32)) };
                assert_eq!(t.lookup(s), Some((e, expect)));
                assert!(e >= 100 || (e < 50 && e % 3 != 0));
            }
            None => assert!((e < 50 && e % 3 == 0) || (e >= 50 && e < 100)),
        }
        e += 1;
    }
}
