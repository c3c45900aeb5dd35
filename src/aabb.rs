//! Axis-aligned bounding boxes.
use vstd::prelude::*;

use crate::entities::Triangle;
use crate::geometry::{V3, Vector3d};

verus! {

/// A box given by its minimum and maximum corners (both inclusive).
#[derive(Clone, Copy, Debug, PartialEq, Eq, Structural)]
pub struct AABB {
    pub min_coords: Vector3d,
    pub max_coords: Vector3d,
}

pub open spec fn min3(a: int, b: int, c: int) -> int {
    if a <= b && a <= c {
        a
    } else if b <= c {
        b
    } else {
        c
    }
}

pub open spec fn max3(a: int, b: int, c: int) -> int {
    if a >= b && a >= c {
        a
    } else if b >= c {
        b
    } else {
        c
    }
}

fn min_of_three(a: i32, b: i32, c: i32) -> (r: i32)
    ensures
        r == min3(a as int, b as int, c as int),
{
    if a <= b && a <= c {
        a
    } else if b <= c {
        b
    } else {
        c
    }
}

fn max_of_three(a: i32, b: i32, c: i32) -> (r: i32)
    ensures
        r == max3(a as int, b as int, c as int),
{
    if a >= b && a >= c {
        a
    } else if b >= c {
        b
    } else {
        c
    }
}

impl AABB {
    /// The box's corners are ordered on every axis.
    pub open spec fn wf(&self) -> bool {
        &&& self.min_coords.x <= self.max_coords.x
        &&& self.min_coords.y <= self.max_coords.y
        &&& self.min_coords.z <= self.max_coords.z
    }

    /// The closed box holds the point.
    pub open spec fn contains_point(&self, p: V3) -> bool {
        &&& self.min_coords.x <= p.0 <= self.max_coords.x
        &&& self.min_coords.y <= p.1 <= self.max_coords.y
        &&& self.min_coords.z <= p.2 <= self.max_coords.z
    }

    /// `other` lies inside this box.
    pub open spec fn contains_box(&self, other: AABB) -> bool {
        &&& self.min_coords.x <= other.min_coords.x
        &&& self.min_coords.y <= other.min_coords.y
        &&& self.min_coords.z <= other.min_coords.z
        &&& other.max_coords.x <= self.max_coords.x
        &&& other.max_coords.y <= self.max_coords.y
        &&& other.max_coords.z <= self.max_coords.z
    }

    /// The separating-axis test: the boxes meet unless one axis separates them.
    pub open spec fn meets(&self, other: AABB) -> bool {
        !(self.max_coords.x < other.min_coords.x || self.min_coords.x > other.max_coords.x
            || self.max_coords.y < other.min_coords.y || self.min_coords.y > other.max_coords.y
            || self.max_coords.z < other.min_coords.z || self.min_coords.z > other.max_coords.z)
    }

    pub open spec fn of_triangle(t: Triangle) -> AABB {
        AABB {
            min_coords: Vector3d {
                x: min3(t.v1.x as int, t.v2.x as int, t.v3.x as int) as i32,
                y: min3(t.v1.y as int, t.v2.y as int, t.v3.y as int) as i32,
                z: min3(t.v1.z as int, t.v2.z as int, t.v3.z as int) as i32,
            },
            max_coords: Vector3d {
                x: max3(t.v1.x as int, t.v2.x as int, t.v3.x as int) as i32,
                y: max3(t.v1.y as int, t.v2.y as int, t.v3.y as int) as i32,
                z: max3(t.v1.z as int, t.v2.z as int, t.v3.z as int) as i32,
            },
        }
    }

    pub open spec fn new_spec(min_x: i32, max_x: i32, min_y: i32, max_y: i32, min_z: i32, max_z: i32) -> AABB {
        AABB {
            min_coords: Vector3d { x: min_x, y: min_y, z: min_z },
            max_coords: Vector3d { x: max_x, y: max_y, z: max_z },
        }
    }

    /// The box with the given bounds on each axis.
    pub fn new(min_x: i32, max_x: i32, min_y: i32, max_y: i32, min_z: i32, max_z: i32) -> (r: AABB)
        ensures
            r == AABB::new_spec(min_x, max_x, min_y, max_y, min_z, max_z),
    {
        AABB {
            min_coords: Vector3d { x: min_x, y: min_y, z: min_z },
            max_coords: Vector3d { x: max_x, y: max_y, z: max_z },
        }
    }

    /// The smallest box holding the triangle: per axis, the least and the
    /// greatest of the three vertex coordinates.
    pub fn from_triangle(triangle: &Triangle) -> (r: AABB)
        ensures
            r == AABB::of_triangle(*triangle),
            r.wf(),
            r.contains_point(triangle.v1@),
            r.contains_point(triangle.v2@),
            r.contains_point(triangle.v3@),
    {
        let min_x = min_of_three(triangle.v1.x, triangle.v2.x, triangle.v3.x);
        let max_x = max_of_three(triangle.v1.x, triangle.v2.x, triangle.v3.x);
        let min_y = min_of_three(triangle.v1.y, triangle.v2.y, triangle.v3.y);
        let max_y = max_of_three(triangle.v1.y, triangle.v2.y, triangle.v3.y);
        let min_z = min_of_three(triangle.v1.z, triangle.v2.z, triangle.v3.z);
        let max_z = max_of_three(triangle.v1.z, triangle.v2.z, triangle.v3.z);
        AABB {
            min_coords: Vector3d { x: min_x, y: min_y, z: min_z },
            max_coords: Vector3d { x: max_x, y: max_y, z: max_z },
        }
    }

    /// Whether the two closed boxes share a point.
    pub fn intersects(self, other: &Self) -> (r: bool)
        ensures
            r == self.meets(*other),
    {
        if self.max_coords.x < other.min_coords.x || self.min_coords.x > other.max_coords.x {
            return false;
        }
        if self.max_coords.y < other.min_coords.y || self.min_coords.y > other.max_coords.y {
            return false;
        }
        if self.max_coords.z < other.min_coords.z || self.min_coords.z > other.max_coords.z {
            return false;
        }
        true
    }
}

/// Box intersection does not depend on the order of the two boxes.
pub proof fn lemma_intersects_symmetric(a: AABB, b: AABB)
    ensures
        a.meets(b) == b.meets(a),
{
}

} // verus!
