//! Integer points and axis-aligned boxes.
//!
//! A box is *valid* when its lower corner is below or equal to its upper
//! corner on both axes; it then stands for the set of grid points between the
//! two corners, both included. Every other box stands for the empty set and
//! serves as the tombstone of a leaf that has no position.

use vstd::prelude::*;

verus! {

/// A position on the integer grid.
#[derive(Clone, Copy, Debug, PartialEq, Eq, Structural)]
pub struct Point {
    pub x: i32,
    pub y: i32,
}

/// An axis-aligned box given by its two corners.
#[derive(Clone, Copy, Debug, PartialEq, Eq, Structural)]
pub struct Aabb {
    pub mins: Point,
    pub maxs: Point,
}

/// The value of `v` brought into the range of `i32`.
pub open spec fn clamped(v: int) -> int {
    if v < i32::MIN {
        i32::MIN as int
    } else if v > i32::MAX {
        i32::MAX as int
    } else {
        v
    }
}

fn clamp_to_grid(v: i64) -> (r: i32)
    ensures
        r == clamped(v as int),
{
    if v < i32::MIN as i64 {
        i32::MIN
    } else if v > i32::MAX as i64 {
        i32::MAX
    } else {
        v as i32
    }
}

impl Point {
    /// The point with the given coordinates.
    pub fn new(x: i32, y: i32) -> (p: Point)
        ensures
            p == (Point { x, y }),
    {
        Point { x, y }
    }
}

impl Aabb {
    /// The box stands for a non-empty set of points.
    pub open spec fn is_valid(self) -> bool {
        self.mins.x <= self.maxs.x && self.mins.y <= self.maxs.y
    }

    /// The canonical empty box: the unit of `hull`.
    pub open spec fn empty() -> Aabb {
        Aabb {
            mins: Point { x: i32::MAX, y: i32::MAX },
            maxs: Point { x: i32::MIN, y: i32::MIN },
        }
    }

    /// `p` lies in the box.
    pub open spec fn holds(self, p: Point) -> bool {
        self.mins.x <= p.x <= self.maxs.x && self.mins.y <= p.y <= self.maxs.y
    }

    /// The two boxes have a point in common.
    pub open spec fn overlaps(self, other: Aabb) -> bool {
        &&& self.is_valid()
        &&& other.is_valid()
        &&& self.mins.x <= other.maxs.x
        &&& other.mins.x <= self.maxs.x
        &&& self.mins.y <= other.maxs.y
        &&& other.mins.y <= self.maxs.y
    }

    /// Every point of `other` lies in `self`.
    pub open spec fn covers(self, other: Aabb) -> bool {
        other.is_valid() ==> {
            &&& self.mins.x <= other.mins.x
            &&& self.mins.y <= other.mins.y
            &&& other.maxs.x <= self.maxs.x
            &&& other.maxs.y <= self.maxs.y
        }
    }

    /// The smallest box that covers both.
    pub open spec fn hull(self, other: Aabb) -> Aabb {
        if !self.is_valid() {
            other
        } else if !other.is_valid() {
            self
        } else {
            Aabb {
                mins: Point {
                    x: if self.mins.x <= other.mins.x { self.mins.x } else { other.mins.x },
                    y: if self.mins.y <= other.mins.y { self.mins.y } else { other.mins.y },
                },
                maxs: Point {
                    x: if self.maxs.x >= other.maxs.x { self.maxs.x } else { other.maxs.x },
                    y: if self.maxs.y >= other.maxs.y { self.maxs.y } else { other.maxs.y },
                },
            }
        }
    }

    /// The box moved outwards by `margin` on all four sides, as far as the
    /// grid reaches. An empty box stays as it is.
    pub open spec fn grown(self, margin: u32) -> Aabb {
        if !self.is_valid() {
            self
        } else {
            Aabb {
                mins: Point {
                    x: clamped(self.mins.x - margin) as i32,
                    y: clamped(self.mins.y - margin) as i32,
                },
                maxs: Point {
                    x: clamped(self.maxs.x + margin) as i32,
                    y: clamped(self.maxs.y + margin) as i32,
                },
            }
        }
    }

    /// Half the perimeter of a valid box; zero for an empty one.
    pub open spec fn girth(self) -> int {
        if self.is_valid() {
            (self.maxs.x - self.mins.x) + (self.maxs.y - self.mins.y)
        } else {
            0
        }
    }

    /// The box with the given corners. It is valid only if `mins` is not
    /// above `maxs` on either axis.
    pub fn new(mins: Point, maxs: Point) -> (b: Aabb)
        ensures
            b == (Aabb { mins, maxs }),
    {
        Aabb { mins, maxs }
    }

    /// The box that holds `p` and nothing else.
    pub fn from_point(p: Point) -> (b: Aabb)
        ensures
            b == (Aabb { mins: p, maxs: p }),
            b.is_valid(),
    {
        Aabb { mins: p, maxs: p }
    }

    /// The canonical empty box.
    pub fn new_invalid() -> (b: Aabb)
        ensures
            b == Aabb::empty(),
            !b.is_valid(),
    {
        Aabb {
            mins: Point { x: i32::MAX, y: i32::MAX },
            maxs: Point { x: i32::MIN, y: i32::MIN },
        }
    }

    /// Whether the box is valid.
    pub fn valid(&self) -> (r: bool)
        ensures
            r == self.is_valid(),
    {
        self.mins.x <= self.maxs.x && self.mins.y <= self.maxs.y
    }

    /// Whether `p` lies in the box.
    pub fn contains_point(&self, p: &Point) -> (r: bool)
        ensures
            r == self.holds(*p),
    {
        self.mins.x <= p.x && p.x <= self.maxs.x && self.mins.y <= p.y && p.y <= self.maxs.y
    }

    /// Whether the two boxes have a point in common.
    pub fn intersects(&self, other: &Aabb) -> (r: bool)
        ensures
            r == self.overlaps(*other),
    {
        self.valid() && other.valid() && self.mins.x <= other.maxs.x && other.mins.x
            <= self.maxs.x && self.mins.y <= other.maxs.y && other.mins.y <= self.maxs.y
    }

    /// Whether every point of `other` lies in this box.
    pub fn contains(&self, other: &Aabb) -> (r: bool)
        ensures
            r == self.covers(*other),
    {
        !other.valid() || (self.mins.x <= other.mins.x && self.mins.y <= other.mins.y
            && other.maxs.x <= self.maxs.x && other.maxs.y <= self.maxs.y)
    }

    /// The smallest box that covers both.
    pub fn merged(&self, other: &Aabb) -> (b: Aabb)
        ensures
            b == self.hull(*other),
    {
        if !self.valid() {
            *other
        } else if !other.valid() {
            *self
        } else {
            Aabb {
                mins: Point {
                    x: if self.mins.x <= other.mins.x { self.mins.x } else { other.mins.x },
                    y: if self.mins.y <= other.mins.y { self.mins.y } else { other.mins.y },
                },
                maxs: Point {
                    x: if self.maxs.x >= other.maxs.x { self.maxs.x } else { other.maxs.x },
                    y: if self.maxs.y >= other.maxs.y { self.maxs.y } else { other.maxs.y },
                },
            }
        }
    }

    /// The box moved outwards by `margin` on all four sides, as far as the
    /// grid reaches.
    pub fn loosened(&self, margin: u32) -> (b: Aabb)
        ensures
            b == self.grown(margin),
    {
        if !self.valid() {
            *self
        } else {
            let m: i64 = margin as i64;
            Aabb {
                mins: Point {
                    x: clamp_to_grid(self.mins.x as i64 - m),
                    y: clamp_to_grid(self.mins.y as i64 - m),
                },
                maxs: Point {
                    x: clamp_to_grid(self.maxs.x as i64 + m),
                    y: clamp_to_grid(self.maxs.y as i64 + m),
                },
            }
        }
    }

    /// Half the perimeter: the measure by which a place for a new leaf is chosen.
    pub fn half_perimeter(&self) -> (g: u64)
        ensures
            g == self.girth(),
    {
        if self.valid() {
            let w: i64 = self.maxs.x as i64 - self.mins.x as i64;
            let h: i64 = self.maxs.y as i64 - self.mins.y as i64;
            (w + h) as u64
        } else {
            0
        }
    }

    /// Two boxes overlap exactly when some point lies in both.
    pub proof fn overlap_is_common_point(a: Aabb, b: Aabb)
        ensures
            a.overlaps(b) <==> exists|p: Point| a.holds(p) && b.holds(p),
    {
        if a.overlaps(b) {
            let p = Point {
                x: if a.mins.x >= b.mins.x { a.mins.x } else { b.mins.x },
                y: if a.mins.y >= b.mins.y { a.mins.y } else { b.mins.y },
            };
            assert(a.holds(p) && b.holds(p));
        }
    }

    /// A box covers another exactly when it holds every point of it.
    pub proof fn cover_is_inclusion(a: Aabb, b: Aabb)
        ensures
            a.covers(b) <==> forall|p: Point| b.holds(p) ==> a.holds(p),
    {
        if a.covers(b) {
            assert forall|p: Point| b.holds(p) implies a.holds(p) by {}
        }
        if forall|p: Point| b.holds(p) ==> a.holds(p) {
            if b.is_valid() {
                assert(b.holds(b.mins));
                assert(b.holds(b.maxs));
                assert(a.holds(b.mins));
                assert(a.holds(b.maxs));
            }
        }
    }

    /// Overlap does not depend on the order of the two boxes.
    pub proof fn overlap_is_symmetric(a: Aabb, b: Aabb)
        ensures
            a.overlaps(b) == b.overlaps(a),
    {
    }

    /// What overlaps a box overlaps every box that covers it.
    pub proof fn overlap_widens(outer: Aabb, inner: Aabb, other: Aabb)
        requires
            outer.covers(inner),
            inner.overlaps(other),
        ensures
            outer.overlaps(other),
    {
    }

    /// The hull covers both of its arguments, and is covered by every box
    /// that covers both.
    pub proof fn hull_is_least_cover(a: Aabb, b: Aabb, c: Aabb)
        ensures
            a.hull(b).covers(a),
            a.hull(b).covers(b),
            a.is_valid() || b.is_valid() ==> a.hull(b).is_valid(),
            c.is_valid() && c.covers(a) && c.covers(b) ==> c.covers(a.hull(b)),
    {
    }

    /// A grown box covers the box it was grown from, and is valid when that is.
    pub proof fn grown_covers(a: Aabb, margin: u32)
        ensures
            a.grown(margin).covers(a),
            a.grown(margin).is_valid() == a.is_valid(),
            a.grown(0) == a,
    {
    }
}

} // verus!
