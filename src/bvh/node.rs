//! Nodes of the hierarchy and the ray tests on their boxes.
use vstd::prelude::*;
use crate::geometry::{Bounds, Point3};
use crate::hit::Hittable;
use crate::ray::{Fraction, Ray, hit_held, lemma_slab_bounded, slab, slab_entry, slab_exit, slab_hit, slab_test};

verus! {

/// A node of the hierarchy. A leaf (`object_count > 0`) holds the positions
/// `[first_object, first_object + object_count)` of the index permutation; an inner
/// node (`object_count == 0`) has its children at `first_object` and `first_object + 1`.
#[derive(Clone, Copy, Debug, PartialEq, Eq, Structural)]
pub struct BvhNode {
    pub aabb_min: Point3,
    pub aabb_max: Point3,
    pub first_object: usize,
    pub object_count: usize,
}

impl BvhNode {
    /// A node with both box corners at the origin.
    pub open spec fn new_spec(first_object: usize, object_count: usize) -> BvhNode {
        BvhNode {
            aabb_min: Point3 { x: 0, y: 0, z: 0 },
            aabb_max: Point3 { x: 0, y: 0, z: 0 },
            first_object,
            object_count,
        }
    }

    pub fn new(first_object: usize, object_count: usize) -> (r: BvhNode)
        ensures
            r == BvhNode::new_spec(first_object, object_count),
    {
        BvhNode { aabb_min: Point3::zero(), aabb_max: Point3::zero(), first_object, object_count }
    }

    pub fn is_leaf(&self) -> (r: bool)
        ensures
            r == (self.object_count > 0),
    {
        self.object_count > 0
    }

    /// Whether the ray meets the node's box.
    pub fn intersect(&self, ray: &Ray) -> (r: bool)
        ensures
            r == slab_hit(*ray, self.aabb_min, self.aabb_max),
    {
        slab_test(ray, self.aabb_min, self.aabb_max).is_some()
    }

    /// Where the ray enters the node's box, or `None` (plus infinity) when it misses it.
    pub fn intersect_distance(&self, ray: &Ray) -> (r: Option<Fraction>)
        ensures
            r == (if slab_hit(*ray, self.aabb_min, self.aabb_max) {
                slab_entry(*ray, self.aabb_min, self.aabb_max)
            } else {
                None
            }),
            r is Some ==> r->Some_0.bounded(),
    {
        slab_test(ray, self.aabb_min, self.aabb_max)
    }

    /// Where the ray hits the node's box: the entry, or the exit when the entry lies
    /// behind the origin; `None` when it misses.
    pub fn intersect_point(&self, ray: &Ray) -> (r: Option<Fraction>)
        ensures
            r == box_hit(*ray, self.aabb_min, self.aabb_max),
            r is Some ==> r->Some_0.bounded(),
    {
        let (_, _, exit) = crate::ray::slab(ray, self.aabb_min, self.aabb_max);
        match slab_test(ray, self.aabb_min, self.aabb_max) {
            Some(t_in) => {
                if t_in.num < 0 {
                    exit
                } else {
                    Some(t_in)
                }
            },
            None => None,
        }
    }
}

/// Where a ray hits the box `[lo, hi]` seen as a solid: the entry, or the exit when the
/// entry lies behind the origin.
pub open spec fn box_hit(ray: Ray, lo: Point3, hi: Point3) -> Option<Fraction> {
    if !slab_hit(ray, lo, hi) {
        None
    } else if slab_entry(ray, lo, hi)->Some_0.num < 0 {
        slab_exit(ray, lo, hi)
    } else {
        slab_entry(ray, lo, hi)
    }
}

/// Where a ray hits a box lies in the box, and is small enough to compare.
pub proof fn lemma_box_hit_held(ray: Ray, lo: Point3, hi: Point3)
    ensures
        box_hit(ray, lo, hi) is Some ==> box_hit(ray, lo, hi)->Some_0.bounded() && hit_held(ray, lo, hi, box_hit(ray, lo, hi)->Some_0),
{
    lemma_slab_bounded(ray, lo, hi);
}

impl Hittable for BvhNode {
    open spec fn hit_spec(&self, ray: Ray) -> Option<Fraction> {
        box_hit(ray, self.aabb_min, self.aabb_max)
    }

    fn intersect(&self, ray: &Ray) -> (r: Option<Fraction>) {
        self.intersect_point(ray)
    }
}

/// The midpoint of two coordinates, rounded towards minus infinity.
fn midpoint(a: i32, b: i32) -> (r: i32)
    ensures
        r as int == (a + b) / 2,
{
    let s: i64 = a as i64 + b as i64;
    let q: i64 = if s >= 0 { s / 2 } else { -((-s + 1) / 2) };
    assert(q == s / 2) by (nonlinear_arith)
        requires
            q == (if s >= 0 { s / 2 } else { -((-s + 1) / 2) }),
    ;
    q as i32
}

impl Bounds {
    /// The bounds of a node seen as a primitive: its box, with the box's midpoint
    /// (rounded towards minus infinity) as centroid.
    pub fn from_node(node: &BvhNode) -> (r: Bounds)
        ensures
            r.aabb_min == node.aabb_min,
            r.aabb_max == node.aabb_max,
            r.centroid.x == (node.aabb_min.x + node.aabb_max.x) / 2,
            r.centroid.y == (node.aabb_min.y + node.aabb_max.y) / 2,
            r.centroid.z == (node.aabb_min.z + node.aabb_max.z) / 2,
    {
        Bounds {
            centroid: Point3 {
                x: midpoint(node.aabb_min.x, node.aabb_max.x),
                y: midpoint(node.aabb_min.y, node.aabb_max.y),
                z: midpoint(node.aabb_min.z, node.aabb_max.z),
            },
            aabb_min: node.aabb_min,
            aabb_max: node.aabb_max,
        }
    }
}

} // verus!
