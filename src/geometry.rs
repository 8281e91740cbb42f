use vstd::prelude::*;

verus! {

/// A point or vector with fixed-point integer coordinates.
#[derive(Clone, Copy, Debug, PartialEq, Eq, Structural)]
pub struct Point3 {
    pub x: i32,
    pub y: i32,
    pub z: i32,
}

impl Point3 {
    /// The coordinate on axis `a` (0 for x, 1 for y, 2 for z).
    pub open spec fn at(self, a: int) -> int {
        if a == 0 {
            self.x as int
        } else if a == 1 {
            self.y as int
        } else {
            self.z as int
        }
    }

    pub fn new(x: i32, y: i32, z: i32) -> (r: Point3)
        ensures
            r == (Point3 { x, y, z }),
    {
        Point3 { x, y, z }
    }

    pub fn zero() -> (r: Point3)
        ensures
            r == (Point3 { x: 0, y: 0, z: 0 }),
    {
        Point3 { x: 0, y: 0, z: 0 }
    }

    /// The coordinate on `axis`.
    pub fn get(&self, axis: usize) -> (r: i32)
        requires
            axis < 3,
        ensures
            r as int == self.at(axis as int),
    {
        if axis == 0 {
            self.x
        } else if axis == 1 {
            self.y
        } else {
            self.z
        }
    }
}

/// The box `[lo, hi]` lies within the box `[outer_lo, outer_hi]`.
pub open spec fn box_within(lo: Point3, hi: Point3, outer_lo: Point3, outer_hi: Point3) -> bool {
    &&& outer_lo.x <= lo.x && hi.x <= outer_hi.x
    &&& outer_lo.y <= lo.y && hi.y <= outer_hi.y
    &&& outer_lo.z <= lo.z && hi.z <= outer_hi.z
}

/// The corners `lo` and `hi` are ordered on every axis.
pub open spec fn corners_ordered(lo: Point3, hi: Point3) -> bool {
    lo.x <= hi.x && lo.y <= hi.y && lo.z <= hi.z
}

/// The surface-area measure of the box `[lo, hi]`: half its surface area.
pub open spec fn half_area(lo: Point3, hi: Point3) -> int {
    (hi.x - lo.x) * (hi.y - lo.y) + (hi.y - lo.y) * (hi.z - lo.z) + (hi.z - lo.z) * (hi.x - lo.x)
}

/// The half area of a box with ordered corners is small enough for 128-bit costs.
pub proof fn lemma_half_area_bounds(lo: Point3, hi: Point3)
    requires
        corners_ordered(lo, hi),
    ensures
        0 <= half_area(lo, hi) < 0x4_0000_0000_0000_0000,
{
    let (ex, ey, ez) = (hi.x - lo.x, hi.y - lo.y, hi.z - lo.z);
    assert(0 <= ex * ey + ey * ez + ez * ex < 0x4_0000_0000_0000_0000) by (nonlinear_arith)
        requires
            0 <= ex < 0x1_0000_0000, 0 <= ey < 0x1_0000_0000, 0 <= ez < 0x1_0000_0000,
    ;
}

/// The smaller of two coordinates.
pub fn min_i32(a: i32, b: i32) -> (r: i32)
    ensures
        r == (if a <= b { a } else { b }),
{
    if a <= b {
        a
    } else {
        b
    }
}

/// The larger of two coordinates.
pub fn max_i32(a: i32, b: i32) -> (r: i32)
    ensures
        r == (if a >= b { a } else { b }),
{
    if a >= b {
        a
    } else {
        b
    }
}

/// The componentwise minimum of two points.
pub fn min_point(a: Point3, b: Point3) -> (r: Point3)
    ensures
        r == (Point3 {
            x: if a.x <= b.x { a.x } else { b.x },
            y: if a.y <= b.y { a.y } else { b.y },
            z: if a.z <= b.z { a.z } else { b.z },
        }),
{
    Point3 { x: min_i32(a.x, b.x), y: min_i32(a.y, b.y), z: min_i32(a.z, b.z) }
}

/// The componentwise maximum of two points.
pub fn max_point(a: Point3, b: Point3) -> (r: Point3)
    ensures
        r == (Point3 {
            x: if a.x >= b.x { a.x } else { b.x },
            y: if a.y >= b.y { a.y } else { b.y },
            z: if a.z >= b.z { a.z } else { b.z },
        }),
{
    Point3 { x: max_i32(a.x, b.x), y: max_i32(a.y, b.y), z: max_i32(a.z, b.z) }
}

/// The measure `half_area` of a box whose corners are ordered, in 128 bits.
pub fn area(lo: Point3, hi: Point3) -> (r: u128)
    requires
        corners_ordered(lo, hi),
    ensures
        r == half_area(lo, hi),
        r < 0x4_0000_0000_0000_0000,
{
    let ex: u128 = (hi.x as i64 - lo.x as i64) as u128;
    let ey: u128 = (hi.y as i64 - lo.y as i64) as u128;
    let ez: u128 = (hi.z as i64 - lo.z as i64) as u128;
    assert(ex * ey < 0x1_0000_0000_0000_0000) by (nonlinear_arith)
        requires
            ex < 0x1_0000_0000, ey < 0x1_0000_0000,
    ;
    assert(ey * ez < 0x1_0000_0000_0000_0000) by (nonlinear_arith)
        requires
            ez < 0x1_0000_0000, ey < 0x1_0000_0000,
    ;
    assert(ez * ex < 0x1_0000_0000_0000_0000) by (nonlinear_arith)
        requires
            ex < 0x1_0000_0000, ez < 0x1_0000_0000,
    ;
    ex * ey + ey * ez + ez * ex
}

/// The bounds of one primitive: a representative centre and a box around it.
#[derive(Clone, Copy, Debug, PartialEq, Eq, Structural)]
pub struct Bounds {
    pub centroid: Point3,
    pub aabb_min: Point3,
    pub aabb_max: Point3,
}

impl Bounds {
    /// The box corners are ordered on every axis.
    pub open spec fn wf(self) -> bool {
        corners_ordered(self.aabb_min, self.aabb_max)
    }

    pub fn new(centroid: Point3, aabb_min: Point3, aabb_max: Point3) -> (r: Bounds)
        ensures
            r == (Bounds { centroid, aabb_min, aabb_max }),
    {
        Bounds { centroid, aabb_min, aabb_max }
    }

    /// The bounds of a triangle: the box spanned by its vertices, and their mean (rounded
    /// towards minus infinity) as centroid.
    pub fn from_triangle(p1: Point3, p2: Point3, p3: Point3) -> (r: Bounds)
        ensures
            r.wf(),
            forall|a: int|
                0 <= a < 3 ==> {
                    &&& #[trigger] r.aabb_min.at(a) == min3(p1.at(a), p2.at(a), p3.at(a))
                    &&& r.aabb_max.at(a) == max3(p1.at(a), p2.at(a), p3.at(a))
                    &&& r.centroid.at(a) == (p1.at(a) + p2.at(a) + p3.at(a)) / 3
                },
    {
        let aabb_min = min_point(min_point(p1, p2), p3);
        let aabb_max = max_point(max_point(p1, p2), p3);
        let centroid = Point3 {
            x: mean3(p1.x, p2.x, p3.x),
            y: mean3(p1.y, p2.y, p3.y),
            z: mean3(p1.z, p2.z, p3.z),
        };
        Bounds { centroid, aabb_min, aabb_max }
    }
}

pub open spec fn min3(a: int, b: int, c: int) -> int {
    let m = if a <= b { a } else { b };
    if m <= c { m } else { c }
}

pub open spec fn max3(a: int, b: int, c: int) -> int {
    let m = if a >= b { a } else { b };
    if m >= c { m } else { c }
}

/// The mean of three coordinates, rounded towards minus infinity.
fn mean3(a: i32, b: i32, c: i32) -> (r: i32)
    ensures
        r as int == (a + b + c) / 3,
{
    let s: i64 = a as i64 + b as i64 + c as i64;
    let q: i64 = if s >= 0 { s / 3 } else { -((-s + 2) / 3) };
    assert(q == s / 3) by (nonlinear_arith)
        requires
            q == (if s >= 0 { s / 3 } else { -((-s + 2) / 3) }),
    ;
    q as i32
}

} // verus!
