use spatial_index::geometry::{Aabb, Point};

fn rect(x0: i32, y0: i32, x1: i32, y1: i32) -> Aabb {
    Aabb::new(Point::new(x0, y0), Point::new(x1, y1))
}

#[test]
fn a_point_box_is_valid() {
    let b = Aabb::from_point(Point::new(3, -4));
    assert!(b.valid());
    assert_eq!(b, rect(3, -4, 3, -4));
    assert!(b.contains_point(&Point::new(3, -4)));
    assert!(!b.contains_point(&Point::new(3, -3)));
}

#[test]
fn the_invalid_box_is_empty() {
    let e = Aabb::new_invalid();
    assert!(!e.valid());
    assert!(!e.contains_point(&Point::new(0, 0)));
    assert!(!e.intersects(&rect(i32::MIN, i32::MIN, i32::MAX, i32::MAX)));
    assert!(!rect(i32::MIN, i32::MIN, i32::MAX, i32::MAX).intersects(&e));
    assert!(rect(0, 0, 1, 1).contains(&e));
    assert!(!e.contains(&rect(0, 0, 1, 1)));
    assert_eq!(e.half_perimeter(), 0);
}

#[test]
fn a_box_with_swapped_corners_is_invalid() {
    let b = rect(5, 0, 4, 10);
    assert!(!b.valid());
    assert!(!b.intersects(&rect(0, 0, 10, 10)));
    assert_eq!(b.loosened(3), b);
}

#[test]
fn boxes_that_touch_overlap() {
    let a = rect(0, 0, 2, 2);
    assert!(a.intersects(&rect(2, 2, 5, 5)));
    assert!(rect(2, 2, 5, 5).intersects(&a));
    assert!(!a.intersects(&rect(3, 0, 5, 2)));
    assert!(!a.intersects(&rect(0, 3, 2, 5)));
    assert!(a.intersects(&rect(-5, 1, 0, 1)));
}

#[test]
fn containment_is_inclusive() {
    let a = rect(0, 0, 10, 10);
    assert!(a.contains(&a));
    assert!(a.contains(&rect(0, 0, 0, 0)));
    assert!(a.contains(&rect(3, 4, 10, 10)));
    assert!(!a.contains(&rect(3, 4, 11, 10)));
    assert!(!a.contains(&rect(-1, 4, 5, 10)));
}

#[test]
fn merged_is_the_hull() {
    let a = rect(0, 0, 2, 2);
    let b = rect(5, -3, 6, 1);
    assert_eq!(a.merged(&b), rect(0, -3, 6, 2));
    assert_eq!(b.merged(&a), rect(0, -3, 6, 2));
    assert_eq!(a.merged(&Aabb::new_invalid()), a);
    assert_eq!(Aabb::new_invalid().merged(&b), b);
    assert_eq!(Aabb::new_invalid().merged(&Aabb::new_invalid()), Aabb::new_invalid());
}

#[test]
fn loosened_moves_every_side() {
    assert_eq!(rect(0, 0, 0, 0).loosened(1), rect(-1, -1, 1, 1));
    assert_eq!(rect(-3, 2, 7, 9).loosened(5), rect(-8, -3, 12, 14));
    assert_eq!(rect(-3, 2, 7, 9).loosened(0), rect(-3, 2, 7, 9));
}

#[test]
fn loosened_stops_at_the_border_of_the_grid() {
    let b = rect(i32::MIN + 1, -5, i32::MAX - 2, 5).loosened(10);
    assert_eq!(b, rect(i32::MIN, -15, i32::MAX, 15));
    let c = rect(0, 0, 0, 0).loosened(u32::MAX);
    assert_eq!(c, rect(i32::MIN, i32::MIN, i32::MAX, i32::MAX));
}

#[test]
fn half_perimeter_is_width_plus_height() {
    assert_eq!(rect(0, 0, 0, 0).half_perimeter(), 0);
    assert_eq!(rect(-2, 1, 3, 4).half_perimeter(), 8);
    assert_eq!(
        rect(i32::MIN, i32::MIN, i32::MAX, i32::MAX).half_perimeter(),
        2 * (u32::MAX as u64)
    );
}
