//! The shape of a built hierarchy and what follows from it.
use vstd::prelude::*;
use vstd::set_lib::{lemma_int_range, lemma_subset_equality, set_int_range};
use crate::geometry::{Bounds, Point3, box_within, corners_ordered, half_area};
use super::node::BvhNode;
use crate::aabb::Aabb;
use super::sah::{join, lemma_members_concat, members_box, box_is_hull, is_permutation, leaf_settled, lemma_frame_members, lemma_frame_split, member_within};

verus! {

/// Node `m` is one of the two children of inner node `k`.
pub open spec fn child_of(nodes: Seq<BvhNode>, m: int, k: int) -> bool {
    &&& 0 <= k < nodes.len()
    &&& nodes[k].object_count == 0
    &&& (nodes[k].first_object == m || nodes[k].first_object + 1 == m)
}

/// Every node but the root has a parent; children pairs start at odd indices, and no two
/// inner nodes share a pair, so that parent is the only one.
pub open spec fn single_parents(nodes: Seq<BvhNode>, n: int) -> bool {
    n > 0 ==> {
        &&& forall|k: int| 0 <= k < nodes.len() && #[trigger] nodes[k].object_count == 0 ==> nodes[k].first_object % 2 == 1
        &&& forall|k: int, l: int|
            0 <= k < nodes.len() && 0 <= l < nodes.len() && k != l && #[trigger] nodes[k].object_count == 0
                && #[trigger] nodes[l].object_count == 0 ==> nodes[k].first_object != nodes[l].first_object
        &&& forall|m: int| 1 <= m < nodes.len() ==> #[trigger] has_parent(nodes, m)
    }
}

/// Node `m` is a child of some inner node.
pub open spec fn has_parent(nodes: Seq<BvhNode>, m: int) -> bool {
    exists|k: int| #[trigger] child_of(nodes, m, k)
}

/// The node's box as an `Aabb`.
pub open spec fn node_box(node: BvhNode) -> Aabb {
    Aabb { bmin: node.aabb_min, bmax: node.aabb_max }
}

/// Every inner node's box is exactly the join of its children's boxes.
pub open spec fn inner_boxes_join(nodes: Seq<BvhNode>, n: int) -> bool {
    n > 0 ==> forall|j: int|
        0 <= j < nodes.len() && #[trigger] nodes[j].object_count == 0 ==> node_box(nodes[j]) == join(
            node_box(nodes[nodes[j].first_object as int]),
            node_box(nodes[nodes[j].first_object + 1]),
        )
}

/// Every leaf's box is exactly the box of the members in its slice.
pub open spec fn leaf_boxes_are_hulls(nodes: Seq<BvhNode>, bounds: Seq<Bounds>, idx: Seq<usize>) -> bool {
    forall|j: int| 0 <= j < nodes.len() && #[trigger] nodes[j].object_count > 0 ==> box_is_hull(bounds, idx, nodes[j])
}

/// Every node's box is exactly the box of the primitives at the positions under it.
pub proof fn lemma_box_is_span_hull(
    nodes: Seq<BvhNode>,
    bounds: Seq<Bounds>,
    idx: Seq<usize>,
    spans: Seq<(int, int)>,
    n: int,
    j: int,
)
    requires
        n > 0,
        tree_shape(nodes, n),
        spans_ok(nodes, spans, n),
        leaf_boxes_are_hulls(nodes, bounds, idx),
        inner_boxes_join(nodes, n),
        0 <= j < nodes.len(),
    ensures
        node_box(nodes[j]) == members_box(bounds, idx, spans[j].0, spans[j].1),
    decreases nodes.len() - j,
{
    if nodes[j].object_count > 0 {
        assert(box_is_hull(bounds, idx, nodes[j]));
    } else {
        let c = nodes[j].first_object as int;
        lemma_box_is_span_hull(nodes, bounds, idx, spans, n, c);
        lemma_box_is_span_hull(nodes, bounds, idx, spans, n, c + 1);
        lemma_members_concat(bounds, idx, spans[j].0, spans[c].1, spans[j].1);
    }
}

/// The surface-area cost of a node: the number of positions under it times its box's half area.
pub open spec fn subtree_cost(nodes: Seq<BvhNode>, spans: Seq<(int, int)>, j: int) -> int {
    (spans[j].1 - spans[j].0) * half_area(nodes[j].aabb_min, nodes[j].aabb_max)
}

/// Every inner node was split only because its two children together cost strictly less
/// than the node itself.
pub open spec fn inner_splits_cheaper(nodes: Seq<BvhNode>, spans: Seq<(int, int)>, n: int) -> bool {
    n > 0 ==> forall|j: int|
        0 <= j < nodes.len() && #[trigger] nodes[j].object_count == 0 ==> subtree_cost(nodes, spans, nodes[j].first_object as int)
            + subtree_cost(nodes, spans, nodes[j].first_object + 1) < subtree_cost(nodes, spans, j)
}

/// A node other than the root has exactly one parent.
pub proof fn lemma_one_parent(nodes: Seq<BvhNode>, n: int, m: int, k: int, l: int)
    requires
        n > 0,
        single_parents(nodes, n),
        child_of(nodes, m, k),
        child_of(nodes, m, l),
    ensures
        k == l,
{
    assert(nodes[k].first_object % 2 == 1 && nodes[l].first_object % 2 == 1);
    if k != l {
        assert(nodes[k].first_object != nodes[l].first_object);
    }
}

/// The slice of every leaf lies within the permutation; every inner node comes before
/// its two children, which are adjacent. With no primitives there is a single empty root.
pub open spec fn tree_shape(nodes: Seq<BvhNode>, n: int) -> bool {
    &&& nodes.len() >= 1
    &&& n == 0 ==> nodes.len() == 1 && nodes[0].object_count == 0
    &&& forall|j: int|
        0 <= j < nodes.len() && #[trigger] nodes[j].object_count > 0 ==> nodes[j].first_object
            + nodes[j].object_count <= n
    &&& n > 0 ==> forall|j: int|
        0 <= j < nodes.len() && #[trigger] nodes[j].object_count == 0 ==> j < nodes[j].first_object
            && nodes[j].first_object + 1 < nodes.len()
}

/// Every leaf's box takes in the bounds of each primitive in its slice.
pub open spec fn leaves_contain_members(nodes: Seq<BvhNode>, bounds: Seq<Bounds>, idx: Seq<usize>) -> bool {
    forall|j: int, p: int|
        0 <= j < nodes.len() && nodes[j].object_count > 0 && nodes[j].first_object <= p < nodes[j].first_object
            + nodes[j].object_count ==> #[trigger] member_within(bounds, idx, p, nodes[j].aabb_min, nodes[j].aabb_max)
}

/// Every inner node's box takes in the boxes of both its children.
pub open spec fn children_contained(nodes: Seq<BvhNode>, n: int) -> bool {
    n > 0 ==> forall|j: int|
        0 <= j < nodes.len() && #[trigger] nodes[j].object_count == 0 ==> {
            &&& box_within(
                nodes[nodes[j].first_object as int].aabb_min,
                nodes[nodes[j].first_object as int].aabb_max,
                nodes[j].aabb_min,
                nodes[j].aabb_max,
            )
            &&& box_within(
                nodes[nodes[j].first_object + 1].aabb_min,
                nodes[nodes[j].first_object + 1].aabb_max,
                nodes[j].aabb_min,
                nodes[j].aabb_max,
            )
        }
}

/// The slices of two distinct leaves do not overlap.
pub open spec fn leaves_disjoint(nodes: Seq<BvhNode>) -> bool {
    forall|j: int, k: int|
        0 <= j < nodes.len() && 0 <= k < nodes.len() && j != k && #[trigger] nodes[j].object_count > 0
            && #[trigger] nodes[k].object_count > 0 ==> nodes[j].first_object + nodes[j].object_count
            <= nodes[k].first_object || nodes[k].first_object + nodes[k].object_count <= nodes[j].first_object
}

/// Each node's box has ordered corners.
pub open spec fn node_boxes_ordered(nodes: Seq<BvhNode>) -> bool {
    forall|j: int| 0 <= j < nodes.len() ==> corners_ordered(#[trigger] nodes[j].aabb_min, nodes[j].aabb_max)
}

/// Each node's subtree holds a range of positions: the root all `n`, a leaf its slice, and
/// an inner node the two adjacent ranges of its children.
pub open spec fn spans_ok(nodes: Seq<BvhNode>, spans: Seq<(int, int)>, n: int) -> bool {
    &&& spans.len() == nodes.len()
    &&& n > 0 ==> spans[0] == (0int, n)
    &&& forall|j: int| 0 <= j < spans.len() ==> 0 <= (#[trigger] spans[j]).0 <= spans[j].1 <= n
    &&& forall|j: int|
        0 <= j < nodes.len() && #[trigger] nodes[j].object_count > 0 ==> spans[j] == (
        nodes[j].first_object as int,
        nodes[j].first_object + nodes[j].object_count,
    )
    &&& n > 0 ==> forall|j: int|
        0 <= j < nodes.len() && #[trigger] nodes[j].object_count == 0 ==> {
            &&& spans[nodes[j].first_object as int].0 == spans[j].0
            &&& spans[nodes[j].first_object as int].1 == spans[nodes[j].first_object + 1].0
            &&& spans[nodes[j].first_object + 1].1 == spans[j].1
        }
}

/// Every primitive at a position under a node lies in the node's box.
pub proof fn lemma_span_members_within(
    nodes: Seq<BvhNode>,
    bounds: Seq<Bounds>,
    idx: Seq<usize>,
    spans: Seq<(int, int)>,
    n: int,
    j: int,
)
    requires
        n > 0,
        tree_shape(nodes, n),
        leaves_contain_members(nodes, bounds, idx),
        children_contained(nodes, n),
        spans_ok(nodes, spans, n),
        0 <= j < nodes.len(),
    ensures
        forall|p: int| spans[j].0 <= p < spans[j].1 ==> #[trigger] member_within(bounds, idx, p, nodes[j].aabb_min, nodes[j].aabb_max),
    decreases nodes.len() - j,
{
    if nodes[j].object_count > 0 {
        assert forall|p: int| spans[j].0 <= p < spans[j].1 implies #[trigger] member_within(bounds, idx, p, nodes[j].aabb_min, nodes[j].aabb_max) by {
            assert(spans[j] == (nodes[j].first_object as int, nodes[j].first_object + nodes[j].object_count));
        }
    } else {
        let c = nodes[j].first_object as int;
        assert(j < c && c + 1 < nodes.len());
        lemma_span_members_within(nodes, bounds, idx, spans, n, c);
        lemma_span_members_within(nodes, bounds, idx, spans, n, c + 1);
        assert forall|p: int| spans[j].0 <= p < spans[j].1 implies #[trigger] member_within(bounds, idx, p, nodes[j].aabb_min, nodes[j].aabb_max) by {
            if p < spans[c].1 {
                assert(member_within(bounds, idx, p, nodes[c].aabb_min, nodes[c].aabb_max));
            } else {
                assert(member_within(bounds, idx, p, nodes[c + 1].aabb_min, nodes[c + 1].aabb_max));
            }
        }
    }
}

/// Primitive `o` sits at some position of the permutation.
pub open spec fn holds_index(idx: Seq<usize>, o: int) -> bool {
    exists|p: int| 0 <= p < idx.len() && #[trigger] idx[p] == o
}

/// A permutation of `[0, n)` holds every index below `n` at some position.
pub proof fn lemma_permutation_covers(idx: Seq<usize>, n: int)
    requires
        is_permutation(idx, n),
    ensures
        forall|o: int| 0 <= o < n ==> #[trigger] holds_index(idx, o),
{
    let s = idx.map_values(|v: usize| v as int);
    assert forall|a: int, b: int| 0 <= a < s.len() && 0 <= b < s.len() && a != b implies s[a] != s[b] by {
        if a < b {
            assert(idx[a] != idx[b]);
        } else {
            assert(idx[b] != idx[a]);
        }
    }
    assert(s.no_duplicates());
    s.unique_seq_to_set();
    lemma_int_range(0, n);
    assert(s.to_set().subset_of(set_int_range(0, n))) by {
        assert forall|v: int| s.to_set().contains(v) implies set_int_range(0, n).contains(v) by {
            let p = choose|p: int| 0 <= p < s.len() && s[p] == v;
            assert(idx[p] < n);
        }
    }
    lemma_subset_equality(s.to_set(), set_int_range(0, n));
    assert forall|o: int| 0 <= o < n implies #[trigger] holds_index(idx, o) by {
        assert(set_int_range(0, n).contains(o));
        assert(s.to_set().contains(o));
        let p = choose|p: int| 0 <= p < s.len() && s[p] == o;
        assert(idx[p] == o);
    }
}

/// The nodes at depth `target` in the subtree of node `index`, which sits at depth `d`,
/// left subtree first. A leaf above the target depth contributes nothing.
pub open spec fn nodes_at_depth(nodes: Seq<BvhNode>, index: int, d: int, target: int) -> Seq<BvhNode>
    decreases nodes.len() - index, target - d,
{
    if !(0 <= index < nodes.len()) || d > target {
        seq![]
    } else if d == target {
        seq![nodes[index]]
    } else if nodes[index].object_count == 0 && index < nodes[index].first_object && nodes[index].first_object + 1
        < nodes.len() {
        nodes_at_depth(nodes, nodes[index].first_object as int, d + 1, target) + nodes_at_depth(
            nodes,
            nodes[index].first_object + 1,
            d + 1,
            target,
        )
    } else {
        seq![]
    }
}

/// The nodes at a depth are nodes of the hierarchy, so their boxes are ordered when all are.
pub proof fn lemma_nodes_at_depth_ordered(nodes: Seq<BvhNode>, index: int, d: int, target: int)
    requires
        node_boxes_ordered(nodes),
    ensures
        node_boxes_ordered(nodes_at_depth(nodes, index, d, target)),
    decreases nodes.len() - index, target - d,
{
    let r = nodes_at_depth(nodes, index, d, target);
    if !(0 <= index < nodes.len()) || d > target {
    } else if d == target {
        assert(corners_ordered(nodes[index].aabb_min, nodes[index].aabb_max));
    } else if nodes[index].object_count == 0 && index < nodes[index].first_object && nodes[index].first_object + 1
        < nodes.len() {
        let a = nodes_at_depth(nodes, nodes[index].first_object as int, d + 1, target);
        let b = nodes_at_depth(nodes, nodes[index].first_object + 1, d + 1, target);
        lemma_nodes_at_depth_ordered(nodes, nodes[index].first_object as int, d + 1, target);
        lemma_nodes_at_depth_ordered(nodes, nodes[index].first_object + 1, d + 1, target);
        assert forall|k: int| 0 <= k < r.len() implies corners_ordered(#[trigger] r[k].aabb_min, r[k].aabb_max) by {
            if k < a.len() {
                assert(r[k] == a[k]);
            } else {
                assert(r[k] == b[k - a.len()]);
            }
        }
    }
}

/// A partition of the slice `[lo, hi)` of leaf `cur` leaves every other leaf as it was: its
/// box still the hull of its members, and settled if it was.
pub(crate) proof fn lemma_untouched_leaves(
    bs: Seq<Bounds>,
    cs: Seq<Point3>,
    old_idx: Seq<usize>,
    idx: Seq<usize>,
    old_nodes: Seq<BvhNode>,
    nodes: Seq<BvhNode>,
    cur: int,
    lo: int,
    hi: int,
)
    requires
        0 <= cur < old_nodes.len(),
        old_nodes[cur].object_count > 0,
        lo == old_nodes[cur].first_object,
        hi == old_nodes[cur].first_object + old_nodes[cur].object_count,
        leaves_disjoint(old_nodes),
        idx.len() == old_idx.len(),
        forall|p: int| 0 <= p < old_idx.len() && !(lo <= p < hi) ==> #[trigger] idx[p] == old_idx[p],
        forall|j: int| 0 <= j < old_nodes.len() && #[trigger] old_nodes[j].object_count > 0 ==> old_nodes[j].first_object
            + old_nodes[j].object_count <= old_idx.len(),
        nodes.len() == old_nodes.len() + 2,
        forall|j: int| 0 <= j < old_nodes.len() && j != cur ==> #[trigger] nodes[j] == old_nodes[j],
        nodes[cur].object_count == 0,
        box_is_hull(bs, idx, nodes[old_nodes.len() as int]),
        box_is_hull(bs, idx, nodes[(old_nodes.len() + 1) as int]),
        forall|j: int| cur < j < old_nodes.len() ==> #[trigger] old_nodes[j].object_count > 0,
        leaf_boxes_are_hulls(old_nodes, bs, old_idx),
        forall|j: int| 0 <= j < cur && #[trigger] old_nodes[j].object_count > 0 ==> leaf_settled(bs, cs, old_idx, old_nodes[j]),
    ensures
        leaf_boxes_are_hulls(nodes, bs, idx),
        forall|j: int| 0 <= j < cur + 1 && #[trigger] nodes[j].object_count > 0 ==> leaf_settled(bs, cs, idx, nodes[j]),
{
    assert forall|j: int| 0 <= j < nodes.len() && #[trigger] nodes[j].object_count > 0 implies box_is_hull(bs, idx, nodes[j]) by {
        if j < old_nodes.len() {
            assert(j != cur);
            assert(nodes[j] == old_nodes[j]);
            assert(box_is_hull(bs, old_idx, old_nodes[j]));
            let (a, b) = (old_nodes[j].first_object as int, old_nodes[j].first_object + old_nodes[j].object_count);
            assert forall|p: int| a <= p < b implies #[trigger] idx[p] == old_idx[p] by {
                assert(!(lo <= p < hi));
            }
            lemma_frame_members(bs, idx, old_idx, a, b);
        }
    }
    assert forall|j: int| 0 <= j < cur + 1 && #[trigger] nodes[j].object_count > 0 implies leaf_settled(bs, cs, idx, nodes[j]) by {
        assert(j != cur);
        assert(nodes[j] == old_nodes[j]);
        let (a, b) = (old_nodes[j].first_object as int, old_nodes[j].first_object + old_nodes[j].object_count);
        assert forall|p: int| a <= p < b implies #[trigger] idx[p] == old_idx[p] by {
            assert(!(lo <= p < hi));
        }
        lemma_frame_split(bs, cs, idx, old_idx, a, b, 48);
    }
}

} // verus!
