use vstd::prelude::*;
pub use self::node::{BvhNode, box_hit, lemma_box_hit_held};
pub use self::sah::{one_centroid, lemma_one_centroid_no_split, lemma_side_concat, lemma_side_all_or_none, join, lemma_members_concat, NO_SPLIT, SPLIT_SAMPLES, all_bounds_wf, best_split, box_is_hull, centroid_hi, centroid_lo, chosen_split, goes_left, is_permutation, leaf_over, leaf_settled, lemma_members_box_contains, lemma_members_box_within, member_within, members_box, sah_cost, side_box, side_count, split_at};
use self::sah::{lemma_swap_keeps_side, lemma_swap_keeps_members, lemma_best_is_candidate, lemma_centroid_range_ordered, lemma_side_box_ordered, lemma_side_counts_sum, lemma_skip_axis, lemma_split_count, lemma_swap_keeps_count};
pub use self::tree::{inner_splits_cheaper, subtree_cost, inner_boxes_join, leaf_boxes_are_hulls, lemma_box_is_span_hull, node_box, child_of, has_parent, lemma_one_parent, single_parents, children_contained, holds_index, leaves_contain_members, leaves_disjoint, lemma_nodes_at_depth_ordered, lemma_permutation_covers, lemma_span_members_within, node_boxes_ordered, nodes_at_depth, spans_ok, tree_shape};
use self::tree::lemma_untouched_leaves;
use vstd::set_lib::{lemma_int_range, lemma_len_subset, set_int_range};
use crate::aabb::Aabb;
use crate::geometry::{Bounds, Point3, box_within, corners_ordered, half_area};
use crate::hit::{Hit, Hittable, deterministic, dist_lt, distance_less, hit_by, lemma_fraction_order, test_result, valid_hit};
use crate::ray::{Fraction, Ray, hit_held, lemma_frac_trans, lemma_slab_within, slab_entry, slab_hit};

pub mod node;
pub mod sah;
pub mod tree;

verus! {

/// The two-pointer partition of positions `[i, end)` by the plane `pos` on `axis`: a member
/// before the plane stays and the scan moves on; any other is exchanged with the last
/// unscanned position, which is then done. Gives the permutation and the first position
/// of the members not before the plane.
pub open spec fn partition_spec(centroids: Seq<Point3>, idx: Seq<usize>, i: int, end: int, axis: int, pos: int) -> (Seq<usize>, int)
    decreases end - i,
{
    if i >= end {
        (idx, i)
    } else if goes_left(centroids, idx, i, axis, pos) {
        partition_spec(centroids, idx, i + 1, end, axis, pos)
    } else {
        partition_spec(centroids, idx.update(i, idx[end - 1]).update(end - 1, idx[i]), i, end - 1, axis, pos)
    }
}

/// One step of the build on node `cur`: split it at the chosen plane when that costs less
/// than the node and leaves both sides non-empty, appending the two sides as leaves.
pub open spec fn build_step(bounds: Seq<Bounds>, centroids: Seq<Point3>, nodes: Seq<BvhNode>, idx: Seq<usize>, cur: int) -> (Seq<BvhNode>, Seq<usize>) {
    let node = nodes[cur];
    let lo = node.first_object as int;
    let hi = node.first_object + node.object_count;
    let best = chosen_split(bounds, centroids, idx, lo, hi);
    if best.2 >= node.object_count * half_area(node.aabb_min, node.aabb_max) {
        (nodes, idx)
    } else {
        let (idx2, mid) = partition_spec(centroids, idx, lo, hi, best.1, best.0);
        if lo < mid < hi {
            (
                nodes.update(cur, BvhNode { first_object: nodes.len() as usize, object_count: 0, ..node }).push(
                    leaf_over(bounds, idx2, lo, mid),
                ).push(leaf_over(bounds, idx2, mid, hi)),
                idx2,
            )
        } else {
            (nodes, idx2)
        }
    }
}

/// The build from node `cur` on, each node processed in the order it was made, for at most
/// `fuel` steps.
pub open spec fn build_from(bounds: Seq<Bounds>, centroids: Seq<Point3>, nodes: Seq<BvhNode>, idx: Seq<usize>, cur: int, fuel: nat) -> (Seq<BvhNode>, Seq<usize>)
    decreases fuel,
{
    if fuel == 0 || cur >= nodes.len() || cur < 0 {
        (nodes, idx)
    } else {
        let (n2, i2) = build_step(bounds, centroids, nodes, idx, cur);
        build_from(bounds, centroids, n2, i2, cur + 1, (fuel - 1) as nat)
    }
}

/// The identity permutation of `[0, n)`.
pub open spec fn identity(n: int) -> Seq<usize> {
    Seq::new(n as nat, |i: int| i as usize)
}

/// The node array and permutation that building over `bounds` and `centroids` gives: a root
/// leaf over every primitive, then the steps (at most `2n`, as the arena holds at most
/// `2n - 1` nodes). With no primitives, one empty root.
pub open spec fn bvh_of(bounds: Seq<Bounds>, centroids: Seq<Point3>) -> (Seq<BvhNode>, Seq<usize>) {
    let n = bounds.len() as int;
    if n == 0 {
        (seq![BvhNode::new_spec(0, 0)], Seq::empty())
    } else {
        build_from(bounds, centroids, seq![leaf_over(bounds, identity(n), 0, n)], identity(n), 0, (2 * n) as nat)
    }
}

/// The nearer of the hit so far and a newly found one; a new hit replaces the old one
/// only when it is strictly nearer, so of equally near hits the first found stays.
pub open spec fn nearer_of(closest: Option<Hit>, found: Option<Hit>) -> Option<Hit> {
    match found {
        Some(h) => if closest is None || h.t.lt(closest->Some_0.t) {
            found
        } else {
            closest
        },
        None => closest,
    }
}

/// The nearest hit among the primitives at positions `[lo, k)`, the first of equally near
/// ones; `res(o)` is primitive `o`'s result.
pub open spec fn leaf_scan(idx: Seq<usize>, res: spec_fn(usize) -> Option<Fraction>, lo: int, k: int) -> Option<Hit>
    decreases k - lo,
{
    if k <= lo {
        None
    } else {
        let prev = leaf_scan(idx, res, lo, k - 1);
        match res(idx[k - 1]) {
            Some(t) => nearer_of(prev, Some(Hit { t, object: idx[k - 1] })),
            None => prev,
        }
    }
}

/// Where the ray enters the node's box, or `None` (plus infinity) when it misses it.
pub open spec fn box_entry(ray: Ray, node: BvhNode) -> Option<Fraction> {
    if slab_hit(ray, node.aabb_min, node.aabb_max) {
        slab_entry(ray, node.aabb_min, node.aabb_max)
    } else {
        None
    }
}

/// The descent from node `index` with `closest` the hit found so far: a leaf's primitives
/// are scanned in slice order; of an inner node's children the one entered no later is
/// visited first (the first child on a tie), and each child only if its box is entered
/// strictly before the nearest hit found by then.
pub open spec fn descend(
    nodes: Seq<BvhNode>,
    idx: Seq<usize>,
    ray: Ray,
    res: spec_fn(usize) -> Option<Fraction>,
    index: int,
    closest: Option<Hit>,
) -> Option<Hit>
    decreases nodes.len() - index,
{
    if !(0 <= index < nodes.len()) {
        closest
    } else if nodes[index].object_count > 0 {
        nearer_of(
            closest,
            leaf_scan(idx, res, nodes[index].first_object as int, nodes[index].first_object + nodes[index].object_count),
        )
    } else if index < nodes[index].first_object && nodes[index].first_object + 1 < nodes.len() {
        let c = nodes[index].first_object as int;
        let d1 = box_entry(ray, nodes[c]);
        let d2 = box_entry(ray, nodes[c + 1]);
        let (a, b, da, db) = if !dist_lt(d2, d1) {
            (c, c + 1, d1, d2)
        } else {
            (c + 1, c, d2, d1)
        };
        let after_a = if dist_lt(da, closest_t(closest)) {
            descend(nodes, idx, ray, res, a, closest)
        } else {
            closest
        };
        if dist_lt(db, closest_t(after_a)) {
            descend(nodes, idx, ray, res, b, after_a)
        } else {
            after_a
        }
    } else {
        closest
    }
}

/// The results of a primitive test, one per primitive.
pub open spec fn test_results<F: Fn(usize) -> Option<Fraction>>(hit_of: &F) -> spec_fn(usize) -> Option<Fraction> {
    |o: usize| test_result(hit_of, o)
}

/// Where the ray hits each of `objects`.
pub open spec fn object_hits<T: Hittable>(objects: Seq<T>, ray: Ray) -> spec_fn(usize) -> Option<Fraction> {
    |o: usize| objects[o as int].hit_spec(ray)
}

/// The distance of a hit; `None` (plus infinity) for none.
pub open spec fn closest_t(closest: Option<Hit>) -> Option<Fraction> {
    match closest {
        Some(h) => Some(h.t),
        None => None,
    }
}

/// The distance of the nearest hit so far; `None` (plus infinity) before the first.
fn closest_distance(closest: &Option<Hit>) -> (r: Option<Fraction>)
    ensures
        r == closest_t(*closest),
{
    match closest {
        Some(h) => Some(h.t),
        None => None,
    }
}

/// A bounding volume hierarchy over primitive bounds: the node arena, the bounds and
/// centroids it was built from, and the permutation of primitive indices whose slices
/// the leaves hold.
pub struct Bvh {
    bvhs: Vec<BvhNode>,
    objects_bounds: Vec<Bounds>,
    objects_centroids: Vec<Point3>,
    objects_indexes: Vec<usize>,
    /// For each node, the positions of the permutation that its subtree holds.
    spans: Ghost<Seq<(int, int)>>,
}

impl Bvh {
    /// The node arena; the root is node 0.
    pub closed spec fn nodes(&self) -> Seq<BvhNode> {
        self.bvhs@
    }

    /// The bounds of the primitives, by primitive index.
    pub closed spec fn bounds(&self) -> Seq<Bounds> {
        self.objects_bounds@
    }

    /// The centroids of the primitives, by primitive index.
    pub closed spec fn centroids(&self) -> Seq<Point3> {
        self.objects_centroids@
    }

    /// The permutation of primitive indices.
    pub closed spec fn indexes(&self) -> Seq<usize> {
        self.objects_indexes@
    }

    /// For each node, the positions `[lo, hi)` of the permutation under it.
    pub closed spec fn spans(&self) -> Seq<(int, int)> {
        self.spans@
    }

    /// The primitive data is consistent: one centroid per bounds, ordered corners, a
    /// permutation of the primitives, and few enough primitives for every cost to fit.
    pub open spec fn data_ok(&self) -> bool {
        &&& self.centroids().len() == self.bounds().len()
        &&& all_bounds_wf(self.bounds())
        &&& is_permutation(self.indexes(), self.bounds().len() as int)
        &&& self.bounds().len() <= MAX_PRIMITIVES
    }

    /// The state of a build after the nodes before `current` were processed: the finished
    /// hierarchy's properties hold, every node from `current` on is a leaf, and the
    /// positions at which slices were cut are recorded in `cuts`, one per split.
    spec fn build_inv(&self, current: int, cuts: Set<int>) -> bool {
        let nodes = self.nodes();
        let n = self.bounds().len() as int;
        &&& self.data_ok()
        &&& n > 0
        &&& 0 <= current <= nodes.len()
        &&& cuts.finite()
        &&& nodes.len() == 2 * cuts.len() + 1
        &&& forall|c: int| #[trigger] cuts.contains(c) ==> 0 < c < n
        &&& tree_shape(nodes, n)
        &&& forall|j: int| 0 <= j < nodes.len() && #[trigger] nodes[j].object_count == 0 ==> j < current
        &&& leaves_contain_members(nodes, self.bounds(), self.indexes())
        &&& children_contained(nodes, n)
        &&& leaves_disjoint(nodes)
        &&& node_boxes_ordered(nodes)
        &&& spans_ok(nodes, self.spans(), n)
        &&& single_parents(nodes, n)
        &&& leaf_boxes_are_hulls(nodes, self.bounds(), self.indexes())
        &&& inner_boxes_join(nodes, n)
        &&& inner_splits_cheaper(nodes, self.spans(), n)
        &&& forall|j: int|
            0 <= j < current && #[trigger] nodes[j].object_count > 0 ==> leaf_settled(
                self.bounds(),
                self.centroids(),
                self.indexes(),
                nodes[j],
            )
        &&& forall|c: int, j: int|
            #[trigger] cuts.contains(c) && 0 <= j < nodes.len() && #[trigger] nodes[j].object_count > 0 ==> !(
            nodes[j].first_object < c < nodes[j].first_object + nodes[j].object_count)
    }

    /// Moves the members at `[lo, hi)` whose centroid lies before `pos` on `axis` to the
    /// front (a two-pointer swap scan) and returns the position of the first other member.
    fn partition(&mut self, lo: usize, hi: usize, axis: usize, pos: i32, Ghost(outer): Ghost<Aabb>) -> (mid: usize)
        requires
            old(self).data_ok(),
            lo <= hi <= old(self).indexes().len(),
            axis < 3,
            forall|p: int| lo <= p < hi ==> #[trigger] member_within(old(self).bounds(), old(self).indexes(), p, outer.bmin, outer.bmax),
        ensures
            final(self).data_ok(),
            final(self).bounds() == old(self).bounds(),
            final(self).centroids() == old(self).centroids(),
            final(self).nodes() == old(self).nodes(),
            final(self).spans() == old(self).spans(),
            final(self).indexes().len() == old(self).indexes().len(),
            lo <= mid <= hi,
            forall|p: int| 0 <= p < old(self).indexes().len() && !(lo <= p < hi) ==> #[trigger] final(self).indexes()[p] == old(self).indexes()[p],
            forall|p: int| lo <= p < hi ==> #[trigger] member_within(final(self).bounds(), final(self).indexes(), p, outer.bmin, outer.bmax),
            forall|p: int| lo <= p < mid ==> #[trigger] goes_left(final(self).centroids(), final(self).indexes(), p, axis as int, pos as int),
            forall|p: int| mid <= p < hi ==> !#[trigger] goes_left(final(self).centroids(), final(self).indexes(), p, axis as int, pos as int),
            side_count(final(self).centroids(), final(self).indexes(), lo as int, hi as int, axis as int, pos as int, true)
                == side_count(old(self).centroids(), old(self).indexes(), lo as int, hi as int, axis as int, pos as int, true),
            members_box(final(self).bounds(), final(self).indexes(), lo as int, hi as int) == members_box(
                old(self).bounds(),
                old(self).indexes(),
                lo as int,
                hi as int,
            ),
            forall|left: bool|
                #[trigger] side_box(final(self).bounds(), final(self).centroids(), final(self).indexes(), lo as int, hi as int, axis as int, pos as int, left)
                    == side_box(old(self).bounds(), old(self).centroids(), old(self).indexes(), lo as int, hi as int, axis as int, pos as int, left),
            (final(self).indexes(), mid as int) == partition_spec(old(self).centroids(), old(self).indexes(), lo as int, hi as int, axis as int, pos as int),
    {
        let ghost start = self.indexes();
        let mut i: usize = lo;
        let mut end: usize = hi;
        while i < end
            invariant
                self.data_ok(),
                self.bounds() == old(self).bounds(),
                self.centroids() == old(self).centroids(),
                self.nodes() == old(self).nodes(),
                self.spans() == old(self).spans(),
                start == old(self).indexes(),
                self.indexes().len() == start.len(),
                lo <= i <= end <= hi <= start.len(),
                axis < 3,
                forall|p: int| 0 <= p < start.len() && !(lo <= p < hi) ==> #[trigger] self.indexes()[p] == start[p],
                forall|p: int| lo <= p < hi ==> #[trigger] member_within(self.bounds(), self.indexes(), p, outer.bmin, outer.bmax),
                forall|p: int| lo <= p < i ==> #[trigger] goes_left(self.centroids(), self.indexes(), p, axis as int, pos as int),
                forall|p: int| end <= p < hi ==> !#[trigger] goes_left(self.centroids(), self.indexes(), p, axis as int, pos as int),
                side_count(self.centroids(), self.indexes(), lo as int, hi as int, axis as int, pos as int, true) == side_count(
                    self.centroids(),
                    start,
                    lo as int,
                    hi as int,
                    axis as int,
                    pos as int,
                    true,
                ),
                members_box(self.bounds(), self.indexes(), lo as int, hi as int) == members_box(self.bounds(), start, lo as int, hi as int),
                forall|left: bool|
                    #[trigger] side_box(self.bounds(), self.centroids(), self.indexes(), lo as int, hi as int, axis as int, pos as int, left)
                        == side_box(self.bounds(), self.centroids(), start, lo as int, hi as int, axis as int, pos as int, left),
                partition_spec(self.centroids(), self.indexes(), i as int, end as int, axis as int, pos as int) == partition_spec(
                    self.centroids(),
                    start,
                    lo as int,
                    hi as int,
                    axis as int,
                    pos as int,
                ),
            decreases end - i,
        {
            let o = self.objects_indexes[i];
            if self.objects_centroids[o].get(axis) < pos {
                assert(goes_left(self.centroids(), self.indexes(), i as int, axis as int, pos as int));
                i += 1;
            } else {
                end -= 1;
                let ghost before = self.indexes();
                let other = self.objects_indexes[end];
                self.objects_indexes[i] = other;
                self.objects_indexes[end] = o;
                proof {
                    let after = self.indexes();
                    assert(after == before.update(i as int, other).update(end as int, o));
                    if i < end {
                        lemma_swap_keeps_count(self.centroids(), before, after, lo as int, i as int, end as int, hi as int, axis as int, pos as int);
                        lemma_swap_keeps_members(self.bounds(), before, after, lo as int, i as int, end as int, hi as int);
                        lemma_swap_keeps_side(self.bounds(), self.centroids(), before, after, lo as int, i as int, end as int, hi as int, axis as int, pos as int, true);
                        lemma_swap_keeps_side(self.bounds(), self.centroids(), before, after, lo as int, i as int, end as int, hi as int, axis as int, pos as int, false);
                    } else {
                        assert(after =~= before);
                    }
                    assert(member_within(self.bounds(), before, i as int, outer.bmin, outer.bmax));
                    assert(member_within(self.bounds(), before, end as int, outer.bmin, outer.bmax));
                    assert forall|p: int| lo <= p < hi implies #[trigger] member_within(self.bounds(), after, p, outer.bmin, outer.bmax) by {
                        if p != i && p != end {
                            assert(member_within(self.bounds(), before, p, outer.bmin, outer.bmax));
                        }
                    }
                    assert forall|p: int, q: int| 0 <= p < q < after.len() implies #[trigger] after[p] != #[trigger] after[q] by {
                        assert(before[p] != before[q] || p == q);
                        if p == i as int || p == end as int || q == i as int || q == end as int {
                            assert(before[i as int] != before[end as int] || i == end);
                            if p != i as int && p != end as int {
                                assert(before[p] != before[i as int] && before[p] != before[end as int]);
                            }
                            if q != i as int && q != end as int {
                                assert(before[q] != before[i as int] && before[q] != before[end as int]);
                            }
                        }
                    }
                    assert(!goes_left(self.centroids(), after, end as int, axis as int, pos as int));
                    assert forall|p: int| end <= p < hi implies !#[trigger] goes_left(self.centroids(), after, p, axis as int, pos as int) by {
                        if p != end as int {
                            assert(!goes_left(self.centroids(), before, p, axis as int, pos as int));
                        }
                    }
                    assert forall|p: int| lo <= p < i implies #[trigger] goes_left(self.centroids(), after, p, axis as int, pos as int) by {
                        assert(goes_left(self.centroids(), before, p, axis as int, pos as int));
                    }
                }
            }
        }
        i
    }

    /// Processes node `bvh_index` of a build: splits it in two by the chosen plane when that
    /// lowers the cost below the node's own (`object_count` times its box's half area) and
    /// leaves both sides non-empty; otherwise the node stays a leaf.
    #[verifier::spinoff_prover]
    #[verifier::rlimit(40)]
    fn calculate_childs(&mut self, bvh_index: usize, Ghost(cuts): Ghost<Set<int>>) -> (new_cuts: Ghost<Set<int>>)
        requires
            old(self).build_inv(bvh_index as int, cuts),
            bvh_index < old(self).nodes().len(),
        ensures
            final(self).build_inv(bvh_index + 1, new_cuts@),
            final(self).bounds() == old(self).bounds(),
            final(self).centroids() == old(self).centroids(),
            (final(self).nodes(), final(self).indexes()) == build_step(
                old(self).bounds(),
                old(self).centroids(),
                old(self).nodes(),
                old(self).indexes(),
                bvh_index as int,
            ),
            final(self).indexes().len() == old(self).indexes().len(),
            forall|p: int|
                0 <= p < old(self).indexes().len() && !(old(self).nodes()[bvh_index as int].first_object <= p
                    < old(self).nodes()[bvh_index as int].first_object + old(self).nodes()[bvh_index as int].object_count)
                    ==> #[trigger] final(self).indexes()[p] == old(self).indexes()[p],
            forall|j: int|
                0 <= j < old(self).nodes().len() ==> #[trigger] final(self).nodes()[j] == old(self).nodes()[j] || (j
                    == bvh_index && final(self).nodes()[j].object_count == 0),
            ({
                let node = old(self).nodes()[bvh_index as int];
                let lo = node.first_object as int;
                let hi = node.first_object + node.object_count;
                let best = chosen_split(old(self).bounds(), old(self).centroids(), old(self).indexes(), lo, hi);
                let node_cost = node.object_count * half_area(node.aabb_min, node.aabb_max);
                &&& best.2 >= node_cost ==> final(self).nodes() == old(self).nodes() && final(self).indexes()
                    == old(self).indexes()
                &&& best.2 < node_cost ==> exists|mid: int|
                    split_at(final(self).centroids(), final(self).indexes(), lo, mid, hi, best.1, best.0) && if lo < mid
                        < hi {
                        final(self).nodes() == old(self).nodes().update(
                            bvh_index as int,
                            BvhNode { first_object: old(self).nodes().len() as usize, object_count: 0, ..node },
                        ).push(leaf_over(final(self).bounds(), final(self).indexes(), lo, mid)).push(
                            leaf_over(final(self).bounds(), final(self).indexes(), mid, hi),
                        )
                    } else {
                        final(self).nodes() == old(self).nodes()
                    }
            }),
    {
        let ghost n = self.bounds().len() as int;
        let node = self.bvhs[bvh_index];
        assert(node.object_count > 0);
        assert(corners_ordered(node.aabb_min, node.aabb_max));
        let node_area = crate::geometry::area(node.aabb_min, node.aabb_max);
        assert(node.object_count * node_area < 0x4_0000_0000_0000_0000_0000_0000) by (nonlinear_arith)
            requires
                node.object_count <= 0x8000_0000, node_area < 0x4_0000_0000_0000_0000,
        ;
        let node_cost: u128 = node.object_count as u128 * node_area;
        let (split_pos, divide_axis, best_cost) = self.division_plane(&node);
        if best_cost >= node_cost {
            assert(leaf_settled(self.bounds(), self.centroids(), self.indexes(), self.nodes()[bvh_index as int]));
            return Ghost(cuts);
        }
        let lo = node.first_object;
        let hi = node.first_object + node.object_count;
        let ghost old_nodes = self.nodes();
        let ghost old_idx = self.indexes();
        let ghost outer = Aabb { bmin: node.aabb_min, bmax: node.aabb_max };
        assert forall|p: int| lo <= p < hi implies #[trigger] member_within(self.bounds(), self.indexes(), p, outer.bmin, outer.bmax) by {
            assert(member_within(self.bounds(), self.indexes(), p, old_nodes[bvh_index as int].aabb_min, old_nodes[bvh_index as int].aabb_max));
        }
        let mid = self.partition(lo, hi, divide_axis, split_pos, Ghost(outer));
        proof {
            let idx = self.indexes();
            assert forall|j: int, p: int|
                0 <= j < old_nodes.len() && old_nodes[j].object_count > 0 && old_nodes[j].first_object <= p
                    < old_nodes[j].first_object + old_nodes[j].object_count implies #[trigger] member_within(
                self.bounds(),
                idx,
                p,
                old_nodes[j].aabb_min,
                old_nodes[j].aabb_max,
            ) by {
                if j != bvh_index as int {
                    assert(old_nodes[bvh_index as int].object_count > 0);
                    assert(!(lo <= p < hi));
                    assert(idx[p] == old_idx[p]);
                    assert(member_within(self.bounds(), old_idx, p, old_nodes[j].aabb_min, old_nodes[j].aabb_max));
                } else {
                    assert(member_within(self.bounds(), idx, p, outer.bmin, outer.bmax));
                }
            }
        }
        let left_count = mid - lo;
        assert(split_at(self.centroids(), self.indexes(), lo as int, mid as int, hi as int, divide_axis as int, split_pos as int));
        if left_count == 0 || left_count == node.object_count {
            proof {
                // A plane that leaves a side empty is no split, so a chosen plane with a
                // real cost puts members on both sides: this branch is never taken.
                let bs = self.bounds();
                let cs = self.centroids();
                let (ax, ps) = (divide_axis as int, split_pos as int);
                assert(chosen_split(bs, cs, old_idx, lo as int, hi as int) == best_split(bs, cs, old_idx, lo as int, hi as int, 48));
                lemma_best_is_candidate(bs, cs, old_idx, lo as int, hi as int, 48);
                lemma_split_count(cs, self.indexes(), lo as int, mid as int, hi as int, ax, ps);
                lemma_side_counts_sum(cs, old_idx, lo as int, hi as int, ax, ps);
                assert(false);
            }
            return Ghost(cuts);
        }
        proof {
            // The cut falls strictly inside this leaf, so it is new, and there are few
            // enough cuts for the arena to stay within `2 * n - 1` nodes.
            assert(!cuts.contains(mid as int));
            lemma_int_range(1, n);
            assert(cuts.insert(mid as int).subset_of(set_int_range(1, n)));
            lemma_len_subset(cuts.insert(mid as int), set_int_range(1, n));
            assert(cuts.len() <= n - 2);
        }
        let left_node_index = self.bvhs.len();
        let right_node_index = left_node_index + 1;
        let left_box = self.calculate_bvh_bounds(lo, mid);
        let right_box = self.calculate_bvh_bounds(mid, hi);
        proof {
            let bs = self.bounds();
            let idx = self.indexes();
            lemma_members_box_contains(bs, idx, lo as int, mid as int);
            lemma_members_box_contains(bs, idx, mid as int, hi as int);
            lemma_members_box_within(bs, idx, lo as int, mid as int, outer);
            lemma_members_box_within(bs, idx, mid as int, hi as int, outer);
        }
        self.bvhs[bvh_index] = BvhNode {
            aabb_min: node.aabb_min,
            aabb_max: node.aabb_max,
            first_object: left_node_index,
            object_count: 0,
        };
        self.bvhs.push(BvhNode { aabb_min: left_box.bmin, aabb_max: left_box.bmax, first_object: lo, object_count: left_count });
        self.bvhs.push(
            BvhNode { aabb_min: right_box.bmin, aabb_max: right_box.bmax, first_object: mid, object_count: hi - mid },
        );
        let ghost new_cuts = cuts.insert(mid as int);
        self.spans = Ghost(self.spans@.push((lo as int, mid as int)).push((mid as int, hi as int)));
        proof {
            let nodes = self.nodes();
            let bs = self.bounds();
            let idx = self.indexes();
            assert(nodes.len() == old_nodes.len() + 2);
            assert(new_cuts.len() == cuts.len() + 1);
            assert forall|j: int| 0 <= j < old_nodes.len() && j != bvh_index as int implies #[trigger] nodes[j] == old_nodes[j] by {}
            assert forall|j: int, p: int|
                0 <= j < nodes.len() && nodes[j].object_count > 0 && nodes[j].first_object <= p < nodes[j].first_object
                    + nodes[j].object_count implies #[trigger] member_within(bs, idx, p, nodes[j].aabb_min, nodes[j].aabb_max) by {
                if j < old_nodes.len() {
                    assert(nodes[j] == old_nodes[j]);
                }
            }
            assert forall|j: int, k: int|
                0 <= j < nodes.len() && 0 <= k < nodes.len() && j != k && #[trigger] nodes[j].object_count > 0
                    && #[trigger] nodes[k].object_count > 0 implies nodes[j].first_object + nodes[j].object_count
                <= nodes[k].first_object || nodes[k].first_object + nodes[k].object_count <= nodes[j].first_object by {
                if j < old_nodes.len() {
                    assert(nodes[j] == old_nodes[j]);
                    assert(old_nodes[j].object_count > 0 && old_nodes[bvh_index as int].object_count > 0);
                }
                if k < old_nodes.len() {
                    assert(nodes[k] == old_nodes[k]);
                    assert(old_nodes[k].object_count > 0 && old_nodes[bvh_index as int].object_count > 0);
                }
            }
            assert forall|c: int, j: int|
                #[trigger] new_cuts.contains(c) && 0 <= j < nodes.len() && #[trigger] nodes[j].object_count > 0 implies !(
                nodes[j].first_object < c < nodes[j].first_object + nodes[j].object_count) by {
                if j < old_nodes.len() {
                    assert(nodes[j] == old_nodes[j]);
                    assert(old_nodes[j].object_count > 0 && old_nodes[bvh_index as int].object_count > 0);
                }
                if c != mid as int {
                    assert(cuts.contains(c));
                    assert(old_nodes[bvh_index as int].object_count > 0);
                }
            }
            assert forall|j: int| 0 <= j < nodes.len() && #[trigger] nodes[j].object_count == 0 implies {
                &&& box_within(
                    nodes[nodes[j].first_object as int].aabb_min,
                    nodes[nodes[j].first_object as int].aabb_max,
                    nodes[j].aabb_min,
                    nodes[j].aabb_max,
                )
                &&& box_within(
                    nodes[nodes[j].first_object + 1].aabb_min,
                    nodes[nodes[j].first_object + 1].aabb_max,
                    nodes[j].aabb_min,
                    nodes[j].aabb_max,
                )
            } by {
                if j != bvh_index as int {
                    assert(nodes[j] == old_nodes[j]);
                    assert(old_nodes[j].object_count == 0);
                    assert(old_nodes[j].first_object + 1 < old_nodes.len());
                    assert(j < bvh_index);
                    assert(old_nodes[j].first_object != bvh_index as int ==> nodes[old_nodes[j].first_object as int] == old_nodes[old_nodes[j].first_object as int]);
                    assert(old_nodes[j].first_object + 1 != bvh_index as int ==> nodes[old_nodes[j].first_object + 1] == old_nodes[old_nodes[j].first_object + 1]);
                }
            }
            assert(tree_shape(nodes, n));
            assert(nodes =~= old_nodes.update(
                bvh_index as int,
                BvhNode { first_object: old_nodes.len() as usize, object_count: 0, ..node },
            ).push(leaf_over(bs, idx, lo as int, mid as int)).push(leaf_over(bs, idx, mid as int, hi as int)));
            assert(split_at(self.centroids(), idx, lo as int, mid as int, hi as int, divide_axis as int, split_pos as int));
            lemma_untouched_leaves(bs, self.centroids(), old_idx, idx, old_nodes, nodes, bvh_index as int, lo as int, hi as int);
            assert(old_nodes.len() % 2 == 1);
            assert(box_is_hull(bs, old_idx, old_nodes[bvh_index as int]));
            lemma_members_concat(bs, idx, lo as int, mid as int, hi as int);
            assert(node_box(nodes[bvh_index as int]) == join(node_box(nodes[old_nodes.len() as int]), node_box(nodes[(old_nodes.len() + 1) as int])));
            {
                let (ax, ps) = (divide_axis as int, split_pos as int);
                let cs = self.centroids();
                assert(chosen_split(bs, cs, old_idx, lo as int, hi as int) == best_split(bs, cs, old_idx, lo as int, hi as int, 48));
                lemma_best_is_candidate(bs, cs, old_idx, lo as int, hi as int, 48);
                lemma_split_count(cs, idx, lo as int, mid as int, hi as int, ax, ps);
                lemma_side_counts_sum(cs, old_idx, lo as int, hi as int, ax, ps);
                assert(side_box(bs, cs, idx, lo as int, hi as int, ax, ps, true) == side_box(bs, cs, old_idx, lo as int, hi as int, ax, ps, true));
                assert(side_box(bs, cs, idx, lo as int, hi as int, ax, ps, false) == side_box(bs, cs, old_idx, lo as int, hi as int, ax, ps, false));
                lemma_side_concat(bs, cs, idx, lo as int, mid as int, hi as int, ax, ps, true);
                lemma_side_concat(bs, cs, idx, lo as int, mid as int, hi as int, ax, ps, false);
                lemma_side_all_or_none(bs, cs, idx, lo as int, mid as int, ax, ps, true);
                lemma_side_all_or_none(bs, cs, idx, lo as int, mid as int, ax, ps, false);
                lemma_side_all_or_none(bs, cs, idx, mid as int, hi as int, ax, ps, true);
                lemma_side_all_or_none(bs, cs, idx, mid as int, hi as int, ax, ps, false);
                let sp = self.spans();
                let c = old_nodes.len() as int;
                assert(sp[c] == (lo as int, mid as int) && sp[c + 1] == (mid as int, hi as int) && sp[bvh_index as int] == (lo as int, hi as int));
                assert(subtree_cost(nodes, sp, c) + subtree_cost(nodes, sp, c + 1) < subtree_cost(nodes, sp, bvh_index as int));
                assert forall|j: int| 0 <= j < nodes.len() && #[trigger] nodes[j].object_count == 0 implies subtree_cost(nodes, sp, nodes[j].first_object as int)
                    + subtree_cost(nodes, sp, nodes[j].first_object + 1) < subtree_cost(nodes, sp, j) by {
                    if j != bvh_index as int {
                        assert(nodes[j] == old_nodes[j] && old_nodes[j].object_count == 0);
                        let k = old_nodes[j].first_object as int;
                        assert(k + 1 < old_nodes.len());
                        assert(subtree_cost(nodes, sp, k) == subtree_cost(old_nodes, old(self).spans(), k));
                        assert(subtree_cost(nodes, sp, k + 1) == subtree_cost(old_nodes, old(self).spans(), k + 1));
                        assert(subtree_cost(nodes, sp, j) == subtree_cost(old_nodes, old(self).spans(), j));
                    }
                }
            }
            assert forall|j: int| 0 <= j < nodes.len() && #[trigger] nodes[j].object_count == 0 implies node_box(nodes[j]) == join(
                node_box(nodes[nodes[j].first_object as int]),
                node_box(nodes[nodes[j].first_object + 1]),
            ) by {
                if j != bvh_index as int {
                    assert(nodes[j] == old_nodes[j] && old_nodes[j].object_count == 0);
                    let c = old_nodes[j].first_object as int;
                    assert(c + 1 < old_nodes.len());
                    assert(node_box(nodes[c]) == node_box(old_nodes[c]));
                    assert(node_box(nodes[c + 1]) == node_box(old_nodes[c + 1]));
                }
            }
            assert forall|k: int, l: int|
                0 <= k < nodes.len() && 0 <= l < nodes.len() && k != l && #[trigger] nodes[k].object_count == 0
                    && #[trigger] nodes[l].object_count == 0 implies nodes[k].first_object != nodes[l].first_object by {
                if k != bvh_index as int {
                    assert(nodes[k] == old_nodes[k] && old_nodes[k].object_count == 0);
                }
                if l != bvh_index as int {
                    assert(nodes[l] == old_nodes[l] && old_nodes[l].object_count == 0);
                }
            }
            assert forall|m: int| 1 <= m < nodes.len() implies #[trigger] has_parent(nodes, m) by {
                if m >= old_nodes.len() {
                    assert(child_of(nodes, m, bvh_index as int));
                } else {
                    assert(has_parent(old_nodes, m));
                    let k = choose|k: int| #[trigger] child_of(old_nodes, m, k);
                    assert(k != bvh_index as int);
                    assert(nodes[k] == old_nodes[k]);
                    assert(child_of(nodes, m, k));
                }
            }
            assert forall|k: int| 0 <= k < nodes.len() && #[trigger] nodes[k].object_count == 0 implies nodes[k].first_object % 2 == 1 by {
                if k != bvh_index as int {
                    assert(nodes[k] == old_nodes[k]);
                }
            }
        }
        Ghost(new_cuts)
    }

    /// The hierarchy over no primitives: a single root with no objects.
    pub fn new() -> (r: Bvh)
        ensures
            r.wf(),
            r.nodes() == seq![BvhNode { aabb_min: Point3 { x: 0, y: 0, z: 0 }, aabb_max: Point3 { x: 0, y: 0, z: 0 }, first_object: 0, object_count: 0 }],
            r.bounds().len() == 0,
            r.indexes().len() == 0,
    {
        let mut bvhs = Vec::new();
        bvhs.push(BvhNode::new(0, 0));
        let r = Bvh {
            bvhs,
            objects_bounds: Vec::new(),
            objects_centroids: Vec::new(),
            objects_indexes: Vec::new(),
            spans: Ghost(Seq::empty().push((0int, 0int))),
        };
        assert(r.nodes() =~= seq![BvhNode::new_spec(0, 0)]);
        r
    }

    /// Appends to `out` the nodes at depth `target` below node `index` (at depth `d`).
    fn collect_depth(&self, index: usize, d: u32, target: u32, out: &mut Vec<BvhNode>)
        requires
            index < self.nodes().len(),
        ensures
            final(out)@ == old(out)@ + nodes_at_depth(self.nodes(), index as int, d as int, target as int),
        decreases self.nodes().len() - index, target - d,
    {
        let bvh = self.bvhs[index];
        if d > target {
            assert(out@ == out@ + Seq::<BvhNode>::empty());
            return;
        }
        if d == target {
            out.push(bvh);
        } else if !bvh.is_leaf() && index < bvh.first_object && bvh.first_object < self.bvhs.len() - 1 {
            let ghost before = out@;
            self.collect_depth(bvh.first_object, d + 1, target, out);
            self.collect_depth(bvh.first_object + 1, d + 1, target, out);
            assert(out@ == before + nodes_at_depth(self.nodes(), index as int, d as int, target as int));
        } else {
            assert(out@ == out@ + Seq::<BvhNode>::empty());
        }
    }

    /// The nodes at depth `depth` below the root (which is at depth 0), left subtree first.
    pub fn get_bvh_by_depth(&self, depth: u32) -> (r: Vec<BvhNode>)
        requires
            self.wf(),
        ensures
            r@ == nodes_at_depth(self.nodes(), 0, 0, depth as int),
    {
        let mut out: Vec<BvhNode> = Vec::new();
        self.collect_depth(0, 0, depth, &mut out);
        assert(out@ =~= nodes_at_depth(self.nodes(), 0, 0, depth as int));
        out
    }

    /// `h` was found by the primitive test: a primitive below `n` whose result is a hit at `h.t`.
    spec fn found<F: Fn(usize) -> Option<Fraction>>(&self, hit_of: &F, res: spec_fn(usize) -> Option<Fraction>, h: Hit) -> bool {
        &&& h.object < self.bounds().len()
        &&& res(h.object) == Some(h.t)
        &&& h.t.bounded()
        &&& hit_of.ensures((h.object,), Some(h.t))
    }

    /// What the traversal asks of the primitive test and of the bounds: the test can be
    /// called on every primitive and gives `res`, and the bounds of a primitive that is hit
    /// hold the hit.
    spec fn test_ok<F: Fn(usize) -> Option<Fraction>>(&self, ray: Ray, hit_of: &F, res: spec_fn(usize) -> Option<Fraction>) -> bool {
        &&& forall|o: usize| o < self.bounds().len() ==> #[trigger] hit_of.requires((o,))
        &&& forall|o: usize, r: Option<Fraction>| o < self.bounds().len() && #[trigger] hit_of.ensures((o,), r) ==> r == res(o)
        &&& forall|o: usize|
            o < self.bounds().len() && (#[trigger] res(o)) is Some ==> res(o)->Some_0.bounded() && hit_held(
                ray,
                self.bounds()[o as int].aabb_min,
                self.bounds()[o as int].aabb_max,
                res(o)->Some_0,
            )
    }

    /// The primitives at positions `[lo, hi)` that are hit are hit no nearer than `closest`.
    spec fn below_all(&self, res: spec_fn(usize) -> Option<Fraction>, closest: Option<Hit>, lo: int, hi: int) -> bool {
        forall|p: int|
            lo <= p < hi && (#[trigger] res(self.indexes()[p])) is Some ==> closest is Some && closest->Some_0.t.le(
                res(self.indexes()[p])->Some_0,
            )
    }

    proof fn lemma_below_all_nearer(&self, res: spec_fn(usize) -> Option<Fraction>, near: Option<Hit>, far: Option<Hit>, lo: int, hi: int)
        requires
            self.data_ok(),
            0 <= lo,
            hi <= self.indexes().len(),
            self.below_all(res, far, lo, hi),
            far is Some ==> near is Some && near->Some_0.t.le(far->Some_0.t),
            near is Some ==> near->Some_0.t.bounded(),
            far is Some ==> far->Some_0.t.bounded(),
            forall|o: usize| o < self.bounds().len() && (#[trigger] res(o)) is Some ==> res(o)->Some_0.bounded(),
        ensures
            self.below_all(res, near, lo, hi),
    {
        assert forall|p: int| lo <= p < hi && (#[trigger] res(self.indexes()[p])) is Some implies near is Some && near->Some_0.t.le(
            res(self.indexes()[p])->Some_0,
        ) by {
            assert(self.indexes()[p] < self.bounds().len());
            lemma_fraction_order(near->Some_0.t, far->Some_0.t, res(self.indexes()[p])->Some_0);
        }
    }

    /// A child that the descent leaves out holds no hit nearer than `closest`: either the
    /// ray misses its box, and with it every primitive under it, or the box is entered no
    /// earlier than `closest`.
    proof fn lemma_skipped_child(&self, ray: Ray, res: spec_fn(usize) -> Option<Fraction>, c: int, d: Option<Fraction>, closest: Option<Hit>)
        requires
            self.wf(),
            self.bounds().len() > 0,
            0 <= c < self.nodes().len(),
            d == (if slab_hit(ray, self.nodes()[c].aabb_min, self.nodes()[c].aabb_max) {
                slab_entry(ray, self.nodes()[c].aabb_min, self.nodes()[c].aabb_max)
            } else {
                None
            }),
            !dist_lt(d, closest_t(closest)),
            closest is Some ==> closest->Some_0.t.bounded(),
            forall|o: usize|
                o < self.bounds().len() && (#[trigger] res(o)) is Some ==> res(o)->Some_0.bounded() && hit_held(
                    ray,
                    self.bounds()[o as int].aabb_min,
                    self.bounds()[o as int].aabb_max,
                    res(o)->Some_0,
                ),
        ensures
            self.below_all(res, closest, self.spans()[c].0, self.spans()[c].1),
    {
        let nodes = self.nodes();
        let n = self.bounds().len() as int;
        lemma_span_members_within(nodes, self.bounds(), self.indexes(), self.spans(), n, c);
        assert forall|p: int|
            self.spans()[c].0 <= p < self.spans()[c].1 && (#[trigger] res(self.indexes()[p])) is Some implies closest is Some
                && closest->Some_0.t.le(res(self.indexes()[p])->Some_0) by {
            let o = self.indexes()[p];
            let b = self.bounds()[o as int];
            let t = res(o)->Some_0;
            assert(o < n);
            assert(member_within(self.bounds(), self.indexes(), p, nodes[c].aabb_min, nodes[c].aabb_max));
            lemma_slab_within(ray, b.aabb_min, b.aabb_max, nodes[c].aabb_min, nodes[c].aabb_max);
            let e_c = slab_entry(ray, nodes[c].aabb_min, nodes[c].aabb_max)->Some_0;
            let e_b = slab_entry(ray, b.aabb_min, b.aabb_max)->Some_0;
            let c0 = closest->Some_0.t;
            lemma_frac_trans(e_c, e_b, t);
            assert(!e_c.lt(c0));
            assert(c0.le(e_c)) by (nonlinear_arith)
                requires
                    !(e_c.num * c0.den < c0.num * e_c.den),
            ;
            lemma_frac_trans(c0, e_c, t);
        }
    }

    /// Tests every primitive of the leaf `node` with `hit_of` and keeps in `closest` the
    /// nearer of what it held and the leaf's nearest hit (the first of equal ones).
    fn intersect_triangles<F: Fn(usize) -> Option<Fraction>>(
        &self,
        node: &BvhNode,
        ray: &Ray,
        hit_of: &F,
        Ghost(res): Ghost<spec_fn(usize) -> Option<Fraction>>,
        closest: &mut Option<Hit>,
    )
        requires
            self.wf(),
            node.first_object + node.object_count <= self.indexes().len(),
            self.test_ok(*ray, hit_of, res),
            *old(closest) is Some ==> self.found(hit_of, res, (*old(closest))->Some_0),
        ensures
            *final(closest) is Some ==> self.found(hit_of, res, (*final(closest))->Some_0),
            *old(closest) is Some ==> *final(closest) is Some && (*final(closest))->Some_0.t.le((*old(closest))->Some_0.t),
            self.below_all(res, *final(closest), node.first_object as int, node.first_object + node.object_count),
            *final(closest) == nearer_of(
                *old(closest),
                leaf_scan(self.indexes(), res, node.first_object as int, node.first_object + node.object_count),
            ),
    {
        let lo = node.first_object;
        let hi = node.first_object + node.object_count;
        let mut best: Option<Hit> = None;
        let mut k: usize = lo;
        while k < hi
            invariant
                self.wf(),
                lo <= k <= hi <= self.indexes().len(),
                self.test_ok(*ray, hit_of, res),
                best is Some ==> self.found(hit_of, res, best->Some_0),
                self.below_all(res, best, lo as int, k as int),
                best == leaf_scan(self.indexes(), res, lo as int, k as int),
            decreases hi - k,
        {
            let o = self.objects_indexes[k];
            let hit = hit_of(o);
            let ghost old_best = best;
            if let Some(t) = hit {
                let nearer = match best {
                    None => true,
                    Some(b) => t.less_than(&b.t),
                };
                if nearer {
                    best = Some(Hit { t, object: o });
                    proof {
                        if old_best is Some {
                            lemma_fraction_order(t, old_best->Some_0.t, old_best->Some_0.t);
                        }
                        lemma_fraction_order(t, t, t);
                        self.lemma_below_all_nearer(res, best, old_best, lo as int, k as int);
                    }
                } else {
                    proof {
                        lemma_fraction_order(best->Some_0.t, t, t);
                    }
                }
            }
            proof {
                assert forall|p: int| lo <= p < k + 1 && (#[trigger] res(self.indexes()[p])) is Some implies best is Some
                    && best->Some_0.t.le(res(self.indexes()[p])->Some_0) by {
                    if p < k {
                        assert(self.below_all(res, best, lo as int, k as int));
                    }
                }
            }
            k += 1;
        }
        let ghost old_closest = *closest;
        if let Some(hit_u) = best {
            let replace = match closest {
                None => true,
                Some(c) => hit_u.t.less_than(&c.t),
            };
            if replace {
                *closest = best;
                proof {
                    if old_closest is Some {
                        lemma_fraction_order(hit_u.t, old_closest->Some_0.t, old_closest->Some_0.t);
                    }
                }
            } else {
                proof {
                    let c = old_closest->Some_0.t;
                    lemma_fraction_order(c, c, c);
                    lemma_fraction_order(c, hit_u.t, hit_u.t);
                    self.lemma_below_all_nearer(res, old_closest, best, lo as int, hi as int);
                }
            }
        } else {
            proof {
                if *closest is Some {
                    lemma_fraction_order(closest->Some_0.t, closest->Some_0.t, closest->Some_0.t);
                }
            }
        }
    }

    /// Descends from node `index`: a leaf is tested primitive by primitive; of an inner
    /// node's children the nearer box is visited first, and a child is visited only while
    /// its box's entry comes before the nearest hit found so far.
    fn intersect_bvh<F: Fn(usize) -> Option<Fraction>>(
        &self,
        index: usize,
        ray: &Ray,
        hit_of: &F,
        Ghost(res): Ghost<spec_fn(usize) -> Option<Fraction>>,
        closest: &mut Option<Hit>,
    )
        requires
            self.wf(),
            self.bounds().len() > 0,
            index < self.nodes().len(),
            self.test_ok(*ray, hit_of, res),
            *old(closest) is Some ==> self.found(hit_of, res, (*old(closest))->Some_0),
        ensures
            *final(closest) is Some ==> self.found(hit_of, res, (*final(closest))->Some_0),
            *old(closest) is Some ==> *final(closest) is Some && (*final(closest))->Some_0.t.le((*old(closest))->Some_0.t),
            self.below_all(res, *final(closest), self.spans()[index as int].0, self.spans()[index as int].1),
            *final(closest) == descend(self.nodes(), self.indexes(), *ray, res, index as int, *old(closest)),
        decreases self.nodes().len() - index,
    {
        let node = self.bvhs[index];
        if node.is_leaf() {
            self.intersect_triangles(&node, ray, hit_of, Ghost(res), closest);
        } else {
            let count = self.bvhs.len();
            assert(self.nodes()[index as int].object_count == 0);
            assert(node.first_object + 1 < count);
            let child1 = self.bvhs[node.first_object];
            let child2 = self.bvhs[node.first_object + 1];
            let hit1 = child1.intersect_distance(ray);
            let hit2 = child2.intersect_distance(ray);
            let (first, second, d1, d2) = if !distance_less(&hit2, &hit1) {
                (node.first_object, node.first_object + 1, hit1, hit2)
            } else {
                (node.first_object + 1, node.first_object, hit2, hit1)
            };
            let ghost c0 = *closest;
            if distance_less(&d1, &closest_distance(closest)) {
                self.intersect_bvh(first, ray, hit_of, Ghost(res), closest);
            } else {
                proof {
                    self.lemma_skipped_child(*ray, res, first as int, d1, *closest);
                }
            }
            let ghost c1 = *closest;
            if distance_less(&d2, &closest_distance(closest)) {
                self.intersect_bvh(second, ray, hit_of, Ghost(res), closest);
            } else {
                proof {
                    self.lemma_skipped_child(*ray, res, second as int, d2, *closest);
                }
            }
            proof {
                let c2 = *closest;
                if c0 is Some {
                    lemma_fraction_order(c2->Some_0.t, c1->Some_0.t, c0->Some_0.t);
                }
                if c1 is Some {
                    lemma_fraction_order(c2->Some_0.t, c2->Some_0.t, c1->Some_0.t);
                }
                self.lemma_below_all_nearer(res, c2, c1, self.spans()[first as int].0, self.spans()[first as int].1);
                let sp = self.spans();
                let c = node.first_object as int;
                assert(sp[c].0 == sp[index as int].0 && sp[c].1 == sp[c + 1].0 && sp[c + 1].1 == sp[index as int].1);
                assert forall|p: int|
                    sp[index as int].0 <= p < sp[index as int].1 && (#[trigger] res(self.indexes()[p])) is Some implies c2 is Some
                        && c2->Some_0.t.le(res(self.indexes()[p])->Some_0) by {
                    if p < sp[c].1 {
                        assert(self.below_all(res, c2, sp[c].0, sp[c].1));
                    } else {
                        assert(self.below_all(res, c2, sp[c + 1].0, sp[c + 1].1));
                    }
                }
            }
        }
    }

    /// The hierarchy's answer equals a scan of every primitive: the nearest hit among the
    /// primitives below `n` whose results are hits, or `None` when none is.
    spec fn nearest<F: Fn(usize) -> Option<Fraction>>(&self, hit_of: &F, res: spec_fn(usize) -> Option<Fraction>, r: Option<Hit>) -> bool {
        &&& r is Some ==> self.found(hit_of, res, r->Some_0)
        &&& forall|o: usize|
            o < self.bounds().len() && (#[trigger] res(o)) is Some ==> r is Some && r->Some_0.t.le(res(o)->Some_0)
    }

    fn intersect_all<F: Fn(usize) -> Option<Fraction>>(
        &self,
        ray: &Ray,
        hit_of: &F,
        Ghost(res): Ghost<spec_fn(usize) -> Option<Fraction>>,
    ) -> (r: Option<Hit>)
        requires
            self.wf(),
            self.test_ok(*ray, hit_of, res),
        ensures
            self.nearest(hit_of, res, r),
            r == self.query(*ray, res),
    {
        if self.objects_indexes.len() == 0 {
            return None;
        }
        let mut closest: Option<Hit> = None;
        self.intersect_bvh(0, ray, hit_of, Ghost(res), &mut closest);
        proof {
            let n = self.bounds().len() as int;
            lemma_permutation_covers(self.indexes(), n);
            assert forall|o: usize| o < self.bounds().len() && (#[trigger] res(o)) is Some implies closest is Some
                && closest->Some_0.t.le(res(o)->Some_0) by {
                assert(holds_index(self.indexes(), o as int));
                let p = choose|p: int| 0 <= p < self.indexes().len() && #[trigger] self.indexes()[p] == o as int;
                assert(self.indexes()[p] == o);
            }
        }
        closest
    }

    /// The nearest hit of the ray among the primitives, found by descending the hierarchy;
    /// `hit_of(o)` tests primitive `o`. It equals the nearest over all primitives when the
    /// test gives one answer per primitive and each primitive's bounds hold its hit.
    pub fn intersect_with<F: Fn(usize) -> Option<Fraction>>(&self, ray: &Ray, hit_of: F) -> (r: Option<Hit>)
        requires
            self.wf(),
            forall|o: usize| o < self.bounds().len() ==> #[trigger] hit_of.requires((o,)),
            forall|o: usize, r: Option<Fraction>| #[trigger] hit_of.ensures((o,), r) ==> (r is Some ==> r->Some_0.bounded()),
            deterministic(&hit_of),
            forall|o: usize|
                o < self.bounds().len() && (#[trigger] test_result(&hit_of, o)) is Some ==> test_result(&hit_of, o)->Some_0.bounded()
                    && hit_held(
                    *ray,
                    self.bounds()[o as int].aabb_min,
                    self.bounds()[o as int].aabb_max,
                    test_result(&hit_of, o)->Some_0,
                ),
        ensures
            r is Some ==> r->Some_0.object < self.bounds().len() && hit_by(&hit_of, r->Some_0),
            forall|o: usize|
                o < self.bounds().len() && (#[trigger] test_result(&hit_of, o)) is Some ==> r is Some && r->Some_0.t.le(
                    test_result(&hit_of, o)->Some_0,
                ),
            self.bounds().len() == 0 ==> r is None,
            r == self.query(*ray, test_results(&hit_of)),
    {
        let ghost res = test_results(&hit_of);
        proof {
            assert forall|o: usize, r: Option<Fraction>| o < self.bounds().len() && #[trigger] hit_of.ensures((o,), r) implies r == res(o) by {
                assert(hit_of.ensures((o,), test_result(&hit_of, o)));
            }
            assert forall|o: usize| o < self.bounds().len() && (#[trigger] res(o)) is Some implies res(o)->Some_0.bounded() && hit_held(
                *ray,
                self.bounds()[o as int].aabb_min,
                self.bounds()[o as int].aabb_max,
                res(o)->Some_0,
            ) by {
                assert(res(o) == test_result(&hit_of, o));
            }
        }
        let r = self.intersect_all(ray, &hit_of, Ghost(res));
        proof {
            assert forall|o: usize| o < self.bounds().len() && (#[trigger] test_result(&hit_of, o)) is Some implies r is Some
                && r->Some_0.t.le(test_result(&hit_of, o)->Some_0) by {
                assert(res(o) == test_result(&hit_of, o));
            }
        }
        r
    }

    /// The nearest primitive of `objects` that the ray hits, found by descending the
    /// hierarchy. When each primitive's bounds hold its hit, it is the nearest hit over all
    /// primitives, and `None` exactly when no primitive is hit.
    pub fn intersect<T: Hittable>(&self, ray: &Ray, objects: &Vec<T>) -> (r: Option<Hit>)
        requires
            self.wf(),
            objects@.len() == self.bounds().len(),
            forall|o: int|
                0 <= o < objects@.len() && (#[trigger] objects@[o].hit_spec(*ray)) is Some ==> objects@[o].hit_spec(
                    *ray,
                )->Some_0.bounded() && hit_held(
                    *ray,
                    self.bounds()[o].aabb_min,
                    self.bounds()[o].aabb_max,
                    objects@[o].hit_spec(*ray)->Some_0,
                ),
        ensures
            r is Some ==> valid_hit(r->Some_0, *ray, objects@),
            r is Some ==> forall|o: int|
                0 <= o < objects@.len() && (#[trigger] objects@[o].hit_spec(*ray)) is Some ==> r->Some_0.t.le(
                    objects@[o].hit_spec(*ray)->Some_0,
                ),
            r is None ==> forall|o: int| 0 <= o < objects@.len() ==> (#[trigger] objects@[o].hit_spec(*ray)) is None,
            r == self.query(*ray, object_hits(objects@, *ray)),
    {
        let hit_of = |o: usize| -> (r: Option<Fraction>)
            requires
                o < objects@.len(),
            ensures
                r == objects@[o as int].hit_spec(*ray),
                r is Some ==> r->Some_0.bounded(),
            { objects[o].intersect(ray) };
        let ghost res = object_hits(objects@, *ray);
        let r = self.intersect_all(ray, &hit_of, Ghost(res));
        proof {
            assert forall|o: int| 0 <= o < objects@.len() && (#[trigger] objects@[o].hit_spec(*ray)) is Some implies r is Some
                && r->Some_0.t.le(objects@[o].hit_spec(*ray)->Some_0) by {
                assert(res(o as usize) == objects@[o].hit_spec(*ray));
            }
        }
        r
    }

    /// The node arena.
    pub fn bvh_nodes(&self) -> (r: &Vec<BvhNode>)
        ensures
            r@ == self.nodes(),
    {
        &self.bvhs
    }

    /// The permutation of primitive indices.
    pub fn objects_indexes(&self) -> (r: &Vec<usize>)
        ensures
            r@ == self.indexes(),
    {
        &self.objects_indexes
    }

    /// The number of nodes.
    pub fn bvh_count(&self) -> (r: usize)
        ensures
            r == self.nodes().len(),
    {
        self.bvhs.len()
    }

    /// The answer of the hierarchy to a ray, given each primitive's result `res`: the
    /// descent from the root, or `None` without primitives.
    pub open spec fn query(&self, ray: Ray, res: spec_fn(usize) -> Option<Fraction>) -> Option<Hit> {
        if self.bounds().len() == 0 {
            None
        } else {
            descend(self.nodes(), self.indexes(), ray, res, 0, None)
        }
    }

    /// `self` is the hierarchy built over `bounds` and `centroids`: consistent data and a
    /// permutation of the primitives; a binary tree in which every node but the root has one
    /// parent; leaf boxes that are the hulls of their slices and inner boxes that join their
    /// children's; inner splits that are strictly cheaper than their node and leaves that no
    /// candidate plane would split cheaper; a single leaf when all centroids coincide.
    pub open spec fn built_from(&self, bounds: Seq<Bounds>, centroids: Seq<Point3>) -> bool {
        let n = bounds.len() as int;
        &&& (self.nodes(), self.indexes()) == bvh_of(bounds, centroids)
        &&& self.wf()
        &&& self.bounds() == bounds
        &&& self.centroids() == centroids
        &&& is_permutation(self.indexes(), n)
        &&& tree_shape(self.nodes(), n)
        &&& leaves_contain_members(self.nodes(), bounds, self.indexes())
        &&& children_contained(self.nodes(), n)
        &&& leaves_disjoint(self.nodes())
        &&& single_parents(self.nodes(), n)
        &&& leaf_boxes_are_hulls(self.nodes(), bounds, self.indexes())
        &&& inner_boxes_join(self.nodes(), n)
        &&& inner_splits_cheaper(self.nodes(), self.spans(), n)
        &&& forall|j: int|
            0 <= j < self.nodes().len() && #[trigger] self.nodes()[j].object_count > 0 ==> leaf_settled(
                bounds,
                centroids,
                self.indexes(),
                self.nodes()[j],
            )
        &&& n > 0 && one_centroid(centroids) ==> self.nodes().len() == 1 && self.nodes()[0].object_count == n
        &&& n > 0 ==> self.nodes().len() <= 2 * n - 1
        &&& n > 0 ==> self.nodes()[0].first_object == 0 && self.nodes()[0].object_count == n
            || self.nodes()[0].object_count == 0
    }

    /// Rebuilding from the same primitive bounds and centroids gives the same node array
    /// and the same permutation, whatever the hierarchies held before.
    pub proof fn lemma_rebuild_identical(a: &Bvh, b: &Bvh, bounds: Seq<Bounds>, centroids: Seq<Point3>)
        requires
            a.built_from(bounds, centroids),
            b.built_from(bounds, centroids),
        ensures
            a.nodes() == b.nodes(),
            a.indexes() == b.indexes(),
    {
    }

    /// Builds the hierarchy over the given primitive bounds and centroids, replacing what
    /// was there. The root spans every primitive; nodes are processed in the order they were
    /// made, each split by `calculate_childs`, and children are appended as adjacent pairs.
    pub fn calculate_bvh(&mut self, objects_bounds: Vec<Bounds>, objects_centroids: Vec<Point3>)
        requires
            objects_centroids@.len() == objects_bounds@.len(),
            objects_bounds@.len() <= MAX_PRIMITIVES,
            all_bounds_wf(objects_bounds@),
        ensures
            final(self).built_from(objects_bounds@, objects_centroids@),
    {
        let n = objects_bounds.len();
        let mut objects_indexes: Vec<usize> = Vec::with_capacity(n);
        let mut k: usize = 0;
        while k < n
            invariant
                k <= n,
                objects_indexes@.len() == k,
                forall|p: int| 0 <= p < k ==> #[trigger] objects_indexes@[p] == p,
            decreases n - k,
        {
            objects_indexes.push(k);
            k += 1;
        }
        self.objects_indexes = objects_indexes;
        self.objects_bounds = objects_bounds;
        self.objects_centroids = objects_centroids;
        self.bvhs = Vec::new();
        if n == 0 {
            self.bvhs.push(BvhNode::new(0, 0));
            self.spans = Ghost(Seq::empty().push((0int, 0int)));
            assert(self.nodes() =~= seq![BvhNode::new_spec(0, 0)]);
            assert(self.indexes() =~= Seq::<usize>::empty());
            return;
        }
        self.spans = Ghost(Seq::empty().push((0int, n as int)));
        let root_box = self.calculate_bvh_bounds(0, n);
        proof {
            lemma_members_box_contains(self.bounds(), self.indexes(), 0, n as int);
        }
        self.bvhs.push(BvhNode { aabb_min: root_box.bmin, aabb_max: root_box.bmax, first_object: 0, object_count: n });
        assert(self.indexes() =~= identity(n as int));
        assert(self.nodes() =~= seq![leaf_over(objects_bounds@, identity(n as int), 0, n as int)]);
        let ghost mut cuts: Set<int> = Set::empty();
        let mut current_index: usize = 0;
        while current_index < self.bvhs.len()
            invariant
                self.build_inv(current_index as int, cuts),
                self.bounds() == objects_bounds@,
                self.centroids() == objects_centroids@,
                n == objects_bounds@.len(),
                self.nodes()[0].first_object == 0 && self.nodes()[0].object_count == n || self.nodes()[0].object_count == 0,
                one_centroid(objects_centroids@) ==> self.nodes().len() == 1 && self.nodes()[0].object_count == n,
                build_from(objects_bounds@, objects_centroids@, self.nodes(), self.indexes(), current_index as int, (2 * n - current_index) as nat)
                    == bvh_of(objects_bounds@, objects_centroids@),
            decreases 2 * n - current_index,
        {
            proof {
                lemma_int_range(1, n as int);
                lemma_len_subset(cuts, set_int_range(1, n as int));
            }
            proof {
                if one_centroid(objects_centroids@) {
                    lemma_one_centroid_no_split(self.bounds(), self.centroids(), self.indexes(), 0, n as int);
                    let node = self.nodes()[0];
                    crate::geometry::lemma_half_area_bounds(node.aabb_min, node.aabb_max);
                    assert(node.object_count * half_area(node.aabb_min, node.aabb_max) < NO_SPLIT) by (nonlinear_arith)
                        requires
                            node.object_count <= 0x8000_0000,
                            0 <= half_area(node.aabb_min, node.aabb_max) < 0x4_0000_0000_0000_0000,
                    {
                    }
                }
            }
            let Ghost(next) = self.calculate_childs(current_index, Ghost(cuts));
            proof {
                cuts = next;
            }
            current_index += 1;
        }
        proof {
            lemma_int_range(1, n as int);
            lemma_len_subset(cuts, set_int_range(1, n as int));
        }
    }

    /// A built hierarchy: consistent primitive data and the shape and containment
    /// properties that `calculate_bvh` establishes.
    pub open spec fn wf(&self) -> bool {
        let n = self.bounds().len() as int;
        &&& self.data_ok()
        &&& tree_shape(self.nodes(), n)
        &&& leaves_contain_members(self.nodes(), self.bounds(), self.indexes())
        &&& children_contained(self.nodes(), n)
        &&& leaves_disjoint(self.nodes())
        &&& node_boxes_ordered(self.nodes())
        &&& spans_ok(self.nodes(), self.spans(), n)
        &&& single_parents(self.nodes(), n)
    }

    /// The box of the members at positions `[lo, hi)`.
    fn calculate_bvh_bounds(&self, lo: usize, hi: usize) -> (r: Aabb)
        requires
            self.data_ok(),
            lo <= hi <= self.indexes().len(),
        ensures
            r == members_box(self.bounds(), self.indexes(), lo as int, hi as int),
    {
        let mut acc = Aabb::default();
        let mut k: usize = lo;
        while k < hi
            invariant
                self.data_ok(),
                lo <= k <= hi <= self.indexes().len(),
                acc == members_box(self.bounds(), self.indexes(), lo as int, k as int),
            decreases hi - k,
        {
            let o = self.objects_indexes[k];
            let b = self.objects_bounds[o];
            acc.grow(b.aabb_min);
            acc.grow(b.aabb_max);
            k += 1;
        }
        acc
    }

    /// The least and greatest centroid coordinate on `axis` of the members at `[lo, hi)`.
    fn centroid_range(&self, lo: usize, hi: usize, axis: usize) -> (r: (i32, i32))
        requires
            self.data_ok(),
            lo <= hi <= self.indexes().len(),
            axis < 3,
        ensures
            r.0 == centroid_lo(self.centroids(), self.indexes(), lo as int, hi as int, axis as int),
            r.1 == centroid_hi(self.centroids(), self.indexes(), lo as int, hi as int, axis as int),
    {
        let mut bounds_min: i32 = i32::MAX;
        let mut bounds_max: i32 = i32::MIN;
        let mut k: usize = lo;
        while k < hi
            invariant
                self.data_ok(),
                lo <= k <= hi <= self.indexes().len(),
                axis < 3,
                bounds_min == centroid_lo(self.centroids(), self.indexes(), lo as int, k as int, axis as int),
                bounds_max == centroid_hi(self.centroids(), self.indexes(), lo as int, k as int, axis as int),
            decreases hi - k,
        {
            let c = self.objects_centroids[self.objects_indexes[k]].get(axis);
            if c < bounds_min {
                bounds_min = c;
            }
            if c > bounds_max {
                bounds_max = c;
            }
            k += 1;
        }
        (bounds_min, bounds_max)
    }

    /// Chooses the split plane for `node` by the surface area heuristic: on each axis,
    /// `SPLIT_SAMPLES` evenly spaced planes across the centroids' extent are tried, and the
    /// cheapest wins. Returns `(split_pos, divide_axis, best_cost)`; `best_cost` is
    /// `NO_SPLIT` when no axis offers a plane.
    pub fn division_plane(&self, node: &BvhNode) -> (r: (i32, usize, u128))
        requires
            self.data_ok(),
            node.first_object + node.object_count <= self.indexes().len(),
        ensures
            r.1 < 3,
            (r.0 as int, r.1 as int, r.2 as int) == chosen_split(
                self.bounds(),
                self.centroids(),
                self.indexes(),
                node.first_object as int,
                node.first_object + node.object_count,
            ),
    {
        let lo = node.first_object;
        let hi = node.first_object + node.object_count;
        let ghost bs = self.bounds();
        let ghost cs = self.centroids();
        let ghost ix = self.indexes();
        let mut best_axis: usize = 0;
        let mut best_pos: i32 = 0;
        let mut best_cost: u128 = NO_SPLIT;
        let mut axis: usize = 0;
        while axis < 3
            invariant
                self.data_ok(),
                bs == self.bounds() && cs == self.centroids() && ix == self.indexes(),
                lo <= hi <= ix.len(),
                axis <= 3,
                best_axis < 3,
                (best_pos as int, best_axis as int, best_cost as int) == best_split(bs, cs, ix, lo as int, hi as int, axis * 16),
            decreases 3 - axis,
        {
            let (bounds_min, bounds_max) = self.centroid_range(lo, hi, axis);
            proof {
                lemma_centroid_range_ordered(cs, ix, lo as int, hi as int, axis as int);
            }
            if bounds_min >= bounds_max {
                proof {
                    lemma_skip_axis(bs, cs, ix, lo as int, hi as int, axis as int, 16);
                }
            } else {
                let diff: i64 = bounds_max as i64 - bounds_min as i64;
                let mut i: usize = 0;
                while i < SPLIT_SAMPLES
                    invariant
                        self.data_ok(),
                        bs == self.bounds() && cs == self.centroids() && ix == self.indexes(),
                        lo <= hi <= ix.len(),
                        axis < 3,
                        best_axis < 3,
                        i <= 16,
                        bounds_min == centroid_lo(cs, ix, lo as int, hi as int, axis as int),
                        bounds_max == centroid_hi(cs, ix, lo as int, hi as int, axis as int),
                        bounds_min < bounds_max,
                        diff == bounds_max - bounds_min,
                        (best_pos as int, best_axis as int, best_cost as int) == best_split(bs, cs, ix, lo as int, hi as int, axis * 16 + i),
                    decreases 16 - i,
                {
                    assert(i * diff < 0x10_0000_0000) by (nonlinear_arith)
                        requires
                            0 <= i < 16, 0 < diff < 0x1_0000_0000,
                    ;
                    let scaled: i64 = i as i64 * diff;
                    assert(0 <= scaled <= 15 * diff) by (nonlinear_arith)
                        requires
                            scaled == i * diff, 0 <= i < 16, diff > 0,
                    ;
                    let offset: i64 = scaled / 16;
                    let candidate_pos: i32 = (bounds_min as i64 + offset) as i32;
                    let cost = self.evaluate_sah(lo, hi, axis, candidate_pos);
                    proof {
                        let t = axis * 16 + i + 1;
                        assert((t - 1) / 16 == axis && (t - 1) % 16 == i) by (nonlinear_arith)
                            requires
                                t == axis * 16 + i + 1, 0 <= i < 16,
                        ;
                    }
                    if cost < best_cost {
                        best_axis = axis;
                        best_pos = candidate_pos;
                        best_cost = cost;
                    }
                    i += 1;
                }
            }
            axis += 1;
        }
        (best_pos, best_axis, best_cost)
    }

    /// The surface-area-heuristic cost of splitting the members at `[lo, hi)` by the plane
    /// `pos` on `axis`.
    fn evaluate_sah(&self, lo: usize, hi: usize, axis: usize, pos: i32) -> (r: u128)
        requires
            self.data_ok(),
            lo <= hi <= self.indexes().len(),
            axis < 3,
        ensures
            r == sah_cost(self.bounds(), self.centroids(), self.indexes(), lo as int, hi as int, axis as int, pos as int),
    {
        let ghost bs = self.bounds();
        let ghost cs = self.centroids();
        let ghost ix = self.indexes();
        let mut left_box = Aabb::default();
        let mut right_box = Aabb::default();
        let mut left_count: u64 = 0;
        let mut right_count: u64 = 0;
        let mut k: usize = lo;
        while k < hi
            invariant
                self.data_ok(),
                bs == self.bounds() && cs == self.centroids() && ix == self.indexes(),
                lo <= k <= hi <= ix.len(),
                axis < 3,
                left_count == side_count(cs, ix, lo as int, k as int, axis as int, pos as int, true),
                right_count == side_count(cs, ix, lo as int, k as int, axis as int, pos as int, false),
                left_box == side_box(bs, cs, ix, lo as int, k as int, axis as int, pos as int, true),
                right_box == side_box(bs, cs, ix, lo as int, k as int, axis as int, pos as int, false),
            decreases hi - k,
        {
            proof {
                lemma_side_box_ordered(bs, cs, ix, lo as int, k as int, axis as int, pos as int, true);
                lemma_side_box_ordered(bs, cs, ix, lo as int, k as int, axis as int, pos as int, false);
            }
            let o = self.objects_indexes[k];
            let b = self.objects_bounds[o];
            if self.objects_centroids[o].get(axis) < pos {
                left_count += 1;
                left_box.grow(b.aabb_min);
                left_box.grow(b.aabb_max);
            } else {
                right_count += 1;
                right_box.grow(b.aabb_min);
                right_box.grow(b.aabb_max);
            }
            k += 1;
        }
        proof {
            lemma_side_box_ordered(bs, cs, ix, lo as int, hi as int, axis as int, pos as int, true);
            lemma_side_box_ordered(bs, cs, ix, lo as int, hi as int, axis as int, pos as int, false);
        }
        if left_count == 0 || right_count == 0 {
            return NO_SPLIT;
        }
        let (left_area, right_area) = (left_box.area(), right_box.area());
        assert(left_count * left_area < 0x4_0000_0000_0000_0000_0000_0000) by (nonlinear_arith)
            requires
                left_count <= 0x1_0000_0000, left_area < 0x4_0000_0000_0000_0000,
        ;
        assert(right_count * right_area < 0x4_0000_0000_0000_0000_0000_0000) by (nonlinear_arith)
            requires
                right_count <= 0x1_0000_0000, right_area < 0x4_0000_0000_0000_0000,
        ;
        let cost = left_count as u128 * left_area + right_count as u128 * right_area;
        if cost > 0 {
            cost
        } else {
            NO_SPLIT
        }
    }
}

/// The most primitives a hierarchy is built over: enough for node indices and costs to fit.
pub const MAX_PRIMITIVES: usize = 0x8000_0000;

} // verus!
