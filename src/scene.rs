use vstd::prelude::*;
use crate::bvh::{object_hits, Bvh, BvhNode, MAX_PRIMITIVES, all_bounds_wf, box_hit, lemma_box_hit_held, lemma_nodes_at_depth_ordered, nodes_at_depth};
use crate::geometry::{Bounds, Point3, corners_ordered};
use crate::hit::{Hit, valid_hit};
use crate::ray::{Ray, hit_held};
use crate::hit::Hittable;

verus! {

/// The acceleration structures of a scene: the hierarchy over its primitives, and, for
/// inspecting that hierarchy, a second one built over its nodes at one depth.
pub struct SceneData {
    bvh_accel: Bvh,
    debug_objects: Vec<BvhNode>,
    bvh_debug: Bvh,
}

impl SceneData {
    /// The hierarchy over the scene's primitives.
    pub closed spec fn accel(&self) -> Bvh {
        self.bvh_accel
    }

    /// The nodes shown when inspecting the hierarchy.
    pub closed spec fn debug_nodes(&self) -> Seq<BvhNode> {
        self.debug_objects@
    }

    /// The hierarchy over the shown nodes.
    pub closed spec fn debug_bvh(&self) -> Bvh {
        self.bvh_debug
    }

    pub open spec fn wf(&self) -> bool {
        &&& self.accel().wf()
        &&& self.debug_bvh().wf()
        &&& self.debug_bvh().bounds().len() == self.debug_nodes().len()
        &&& forall|k: int|
            0 <= k < self.debug_nodes().len() ==> (#[trigger] self.debug_bvh().bounds()[k]).aabb_min
                == self.debug_nodes()[k].aabb_min && self.debug_bvh().bounds()[k].aabb_max == self.debug_nodes()[k].aabb_max
    }

    /// A scene with no primitives.
    pub fn new() -> (r: SceneData)
        ensures
            r.wf(),
            r.accel().bounds().len() == 0,
            r.debug_nodes().len() == 0,
    {
        SceneData { bvh_accel: Bvh::new(), debug_objects: Vec::new(), bvh_debug: Bvh::new() }
    }

    /// Builds the hierarchy over the given primitive bounds and centroids.
    pub fn calculate_bvh(&mut self, objects_bounds: Vec<Bounds>, objects_centroids: Vec<Point3>)
        requires
            old(self).wf(),
            objects_centroids@.len() == objects_bounds@.len(),
            objects_bounds@.len() <= MAX_PRIMITIVES,
            all_bounds_wf(objects_bounds@),
        ensures
            final(self).wf(),
            final(self).accel().built_from(objects_bounds@, objects_centroids@),
            final(self).debug_nodes() == old(self).debug_nodes(),
            final(self).debug_bvh() == old(self).debug_bvh(),
    {
        self.bvh_accel.calculate_bvh(objects_bounds, objects_centroids);
    }

    /// The nodes of the scene's hierarchy at the given depth.
    pub fn get_bvh_by_depth(&self, depth: u32) -> (r: Vec<BvhNode>)
        requires
            self.wf(),
        ensures
            r@ == nodes_at_depth(self.accel().nodes(), 0, 0, depth as int),
    {
        self.bvh_accel.get_bvh_by_depth(depth)
    }

    /// Shows the nodes of the scene's hierarchy at `debug_depth`: they become the debug
    /// primitives, and a hierarchy is built over their boxes. (The nodes at one depth are
    /// never more than the primitives; a set of nodes too large to build over is not shown.)
    pub fn calculate_debug_bvh(&mut self, debug_depth: u32)
        requires
            old(self).wf(),
        ensures
            final(self).wf(),
            nodes_at_depth(old(self).accel().nodes(), 0, 0, debug_depth as int).len() <= MAX_PRIMITIVES
                ==> final(self).debug_nodes() == nodes_at_depth(old(self).accel().nodes(), 0, 0, debug_depth as int),
            final(self).accel() == old(self).accel(),
    {
        let nodes = self.bvh_accel.get_bvh_by_depth(debug_depth);
        let ghost all = self.bvh_accel.nodes();
        if nodes.len() > MAX_PRIMITIVES {
            return;
        }
        proof {
            lemma_nodes_at_depth_ordered(all, 0, 0, debug_depth as int);
        }
        let mut bounds: Vec<Bounds> = Vec::new();
        let mut centroids: Vec<Point3> = Vec::new();
        let mut i: usize = 0;
        while i < nodes.len()
            invariant
                i <= nodes@.len(),
                nodes@.len() <= MAX_PRIMITIVES,
                bounds@.len() == i,
                centroids@.len() == i,
                forall|k: int| 0 <= k < i ==> #[trigger] bounds@[k].wf(),
                forall|k: int|
                    0 <= k < i ==> (#[trigger] bounds@[k]).aabb_min == nodes@[k].aabb_min && bounds@[k].aabb_max
                        == nodes@[k].aabb_max,
                forall|k: int| 0 <= k < nodes@.len() ==> corners_ordered(#[trigger] nodes@[k].aabb_min, nodes@[k].aabb_max),
            decreases nodes@.len() - i,
        {
            let b = Bounds::from_node(&nodes[i]);
            centroids.push(b.centroid);
            bounds.push(b);
            i += 1;
        }
        self.debug_objects = nodes;
        self.bvh_debug.calculate_bvh(bounds, centroids);
    }

    /// The hierarchy over the scene's primitives.
    pub fn bvh(&self) -> (r: &Bvh)
        ensures
            *r == self.accel(),
    {
        &self.bvh_accel
    }

    /// The nodes shown when inspecting the hierarchy.
    pub fn debug_objects(&self) -> (r: &Vec<BvhNode>)
        ensures
            r@ == self.debug_nodes(),
    {
        &self.debug_objects
    }

    /// The nearest of the shown nodes that the ray hits (where it enters the box, or leaves
    /// it when it starts inside), the same as a scan of all shown nodes would find.
    pub fn cast_debug_ray(&self, ray: &Ray) -> (r: Option<Hit>)
        requires
            self.wf(),
        ensures
            r is Some ==> valid_hit(r->Some_0, *ray, self.debug_nodes()),
            r is Some ==> forall|o: int|
                0 <= o < self.debug_nodes().len() && (#[trigger] box_hit(*ray, self.debug_nodes()[o].aabb_min, self.debug_nodes()[o].aabb_max)) is Some
                    ==> r->Some_0.t.le(box_hit(*ray, self.debug_nodes()[o].aabb_min, self.debug_nodes()[o].aabb_max)->Some_0),
            r is None ==> forall|o: int|
                0 <= o < self.debug_nodes().len() ==> (#[trigger] box_hit(*ray, self.debug_nodes()[o].aabb_min, self.debug_nodes()[o].aabb_max)) is None,
            r == self.debug_bvh().query(*ray, object_hits(self.debug_nodes(), *ray)),
    {
        proof {
            let nodes = self.debug_nodes();
            assert forall|o: int|
                0 <= o < nodes.len() && (#[trigger] nodes[o].hit_spec(*ray)) is Some implies nodes[o].hit_spec(*ray)->Some_0.bounded()
                    && hit_held(*ray, self.debug_bvh().bounds()[o].aabb_min, self.debug_bvh().bounds()[o].aabb_max, nodes[o].hit_spec(*ray)->Some_0) by {
                lemma_box_hit_held(*ray, nodes[o].aabb_min, nodes[o].aabb_max);
                assert(self.debug_bvh().bounds()[o].aabb_min == nodes[o].aabb_min);
            }
        }
        let r = self.bvh_debug.intersect(ray, &self.debug_objects);
        proof {
            let nodes = self.debug_nodes();
            assert forall|o: int| 0 <= o < nodes.len() implies #[trigger] box_hit(*ray, nodes[o].aabb_min, nodes[o].aabb_max) == nodes[o].hit_spec(*ray) by {}
        }
        r
    }
}

} // verus!
