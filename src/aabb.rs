use vstd::prelude::*;
use crate::geometry::{Point3, corners_ordered, half_area, min_point, max_point};

verus! {

/// An axis-aligned box that grows to take in points. The empty box has its minimum
/// corner at the largest coordinate and its maximum corner at the smallest.
#[derive(Clone, Copy, Debug, PartialEq, Eq, Structural)]
pub struct Aabb {
    pub bmin: Point3,
    pub bmax: Point3,
}

/// The box that takes in nothing.
pub open spec fn empty_box() -> Aabb {
    Aabb {
        bmin: Point3 { x: i32::MAX, y: i32::MAX, z: i32::MAX },
        bmax: Point3 { x: i32::MIN, y: i32::MIN, z: i32::MIN },
    }
}

pub open spec fn min_int(a: i32, b: i32) -> i32 {
    if a <= b { a } else { b }
}

pub open spec fn max_int(a: i32, b: i32) -> i32 {
    if a >= b { a } else { b }
}

/// The box `b` grown just enough to take in `p`.
pub open spec fn grown(b: Aabb, p: Point3) -> Aabb {
    Aabb {
        bmin: Point3 { x: min_int(b.bmin.x, p.x), y: min_int(b.bmin.y, p.y), z: min_int(b.bmin.z, p.z) },
        bmax: Point3 { x: max_int(b.bmax.x, p.x), y: max_int(b.bmax.y, p.y), z: max_int(b.bmax.z, p.z) },
    }
}

impl Aabb {
    /// The corners are ordered on every axis: the box holds at least one point.
    pub open spec fn ordered(self) -> bool {
        corners_ordered(self.bmin, self.bmax)
    }

    /// Grows the box to take in `p`.
    pub fn grow(&mut self, p: Point3)
        ensures
            *final(self) == grown(*old(self), p),
    {
        let bmin = min_point(self.bmin, p);
        let bmax = max_point(self.bmax, p);
        self.bmin = bmin;
        self.bmax = bmax;
    }

    /// Half the surface area of a box that holds at least one point.
    pub fn area(&self) -> (r: u128)
        requires
            self.ordered(),
        ensures
            r == half_area(self.bmin, self.bmax),
            r < 0x4_0000_0000_0000_0000,
    {
        crate::geometry::area(self.bmin, self.bmax)
    }
}

impl Default for Aabb {
    fn default() -> (r: Aabb)
        ensures
            r == empty_box(),
    {
        Aabb {
            bmin: Point3 { x: i32::MAX, y: i32::MAX, z: i32::MAX },
            bmax: Point3 { x: i32::MIN, y: i32::MIN, z: i32::MIN },
        }
    }
}

} // verus!
