//! Axis-aligned bounding boxes whose corners are points of ordered keys.
use vstd::prelude::*;
use crate::interval::Interval;

verus! {

/// One of the three coordinate axes.
#[derive(Clone, Copy, Debug, PartialEq, Eq, Structural)]
pub enum Axis {
    X,
    Y,
    Z,
}

/// A point whose coordinates are ordered keys.
#[derive(Clone, Copy, Debug, PartialEq, Eq, Structural)]
pub struct Point3 {
    pub x: i32,
    pub y: i32,
    pub z: i32,
}

pub open spec fn min_spec(a: i32, b: i32) -> i32 {
    if a <= b {
        a
    } else {
        b
    }
}

pub open spec fn max_spec(a: i32, b: i32) -> i32 {
    if a >= b {
        a
    } else {
        b
    }
}

impl Point3 {
    pub fn new(x: i32, y: i32, z: i32) -> (r: Point3)
        ensures
            r == (Point3 { x, y, z }),
    {
        Point3 { x, y, z }
    }

    /// The coordinate along `axis`.
    pub open spec fn at_spec(self, axis: Axis) -> i32 {
        match axis {
            Axis::X => self.x,
            Axis::Y => self.y,
            Axis::Z => self.z,
        }
    }

    /// The coordinate along `axis`.
    pub fn at(&self, axis: Axis) -> (r: i32)
        ensures
            r == self.at_spec(axis),
    {
        match axis {
            Axis::X => self.x,
            Axis::Y => self.y,
            Axis::Z => self.z,
        }
    }

    pub open spec fn min_spec(self, o: Point3) -> Point3 {
        Point3 { x: min_spec(self.x, o.x), y: min_spec(self.y, o.y), z: min_spec(self.z, o.z) }
    }

    pub open spec fn max_spec(self, o: Point3) -> Point3 {
        Point3 { x: max_spec(self.x, o.x), y: max_spec(self.y, o.y), z: max_spec(self.z, o.z) }
    }

    /// The componentwise minimum.
    pub fn min(&self, o: &Point3) -> (r: Point3)
        ensures
            r == self.min_spec(*o),
    {
        Point3 {
            x: if self.x <= o.x { self.x } else { o.x },
            y: if self.y <= o.y { self.y } else { o.y },
            z: if self.z <= o.z { self.z } else { o.z },
        }
    }

    /// The componentwise maximum.
    pub fn max(&self, o: &Point3) -> (r: Point3)
        ensures
            r == self.max_spec(*o),
    {
        Point3 {
            x: if self.x >= o.x { self.x } else { o.x },
            y: if self.y >= o.y { self.y } else { o.y },
            z: if self.z >= o.z { self.z } else { o.z },
        }
    }
}

/// The box `[min.x, max.x] x [min.y, max.y] x [min.z, max.z]`.
#[derive(Clone, Copy, Debug, PartialEq, Eq, Structural)]
pub struct Aabb {
    pub min: Point3,
    pub max: Point3,
}

impl Aabb {
    /// The box is not empty along any axis.
    pub open spec fn wf(self) -> bool {
        &&& self.min.x <= self.max.x
        &&& self.min.y <= self.max.y
        &&& self.min.z <= self.max.z
    }

    /// Whether the point `p` lies in the box, faces included.
    pub open spec fn contains_point(self, p: Point3) -> bool {
        &&& self.min.x <= p.x <= self.max.x
        &&& self.min.y <= p.y <= self.max.y
        &&& self.min.z <= p.z <= self.max.z
    }

    /// Whether the box `b` lies in this box.
    pub open spec fn contains_box(self, b: Aabb) -> bool {
        &&& self.min.x <= b.min.x
        &&& self.min.y <= b.min.y
        &&& self.min.z <= b.min.z
        &&& b.max.x <= self.max.x
        &&& b.max.y <= self.max.y
        &&& b.max.z <= self.max.z
    }

    /// The corner that takes, along each axis, the maximum where the matching
    /// flag is set and the minimum otherwise.
    pub open spec fn corner(self, hx: bool, hy: bool, hz: bool) -> Point3 {
        Point3 {
            x: if hx { self.max.x } else { self.min.x },
            y: if hy { self.max.y } else { self.min.y },
            z: if hz { self.max.z } else { self.min.z },
        }
    }

    /// The smallest box that holds both boxes.
    pub open spec fn union_spec(self, o: Aabb) -> Aabb {
        Aabb { min: self.min.min_spec(o.min), max: self.max.max_spec(o.max) }
    }

    pub fn new(min: Point3, max: Point3) -> (r: Aabb)
        ensures
            r == (Aabb { min, max }),
    {
        Aabb { min, max }
    }

    /// The smallest box that holds `box0` and `box1`.
    pub fn surrounding_box(box0: &Aabb, box1: &Aabb) -> (r: Aabb)
        ensures
            r == box0.union_spec(*box1),
    {
        Aabb { min: box0.min.min(&box1.min), max: box0.max.max(&box1.max) }
    }

    /// The extent of the box along `axis`.
    pub fn axis_interval(&self, axis: Axis) -> (r: Interval)
        ensures
            r.min == self.min.at_spec(axis),
            r.max == self.max.at_spec(axis),
    {
        Interval::new(self.min.at(axis), self.max.at(axis))
    }
}

/// The box that surrounds two boxes holds every corner of each of them, and
/// both whole boxes.
pub proof fn lemma_surrounding_box_contains(a: Aabb, b: Aabb)
    requires
        a.wf(),
        b.wf(),
    ensures
        a.union_spec(b).wf(),
        a.union_spec(b).contains_box(a),
        a.union_spec(b).contains_box(b),
        forall|hx: bool, hy: bool, hz: bool|
            a.union_spec(b).contains_point(#[trigger] a.corner(hx, hy, hz)),
        forall|hx: bool, hy: bool, hz: bool|
            a.union_spec(b).contains_point(#[trigger] b.corner(hx, hy, hz)),
{
}

/// The surrounding box is the smallest box holding both: any box that holds
/// both boxes holds it.
pub proof fn lemma_surrounding_box_least(a: Aabb, b: Aabb, c: Aabb)
    requires
        c.contains_box(a),
        c.contains_box(b),
    ensures
        c.contains_box(a.union_spec(b)),
{
}

} // verus!
