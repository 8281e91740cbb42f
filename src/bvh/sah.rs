//! The surface area heuristic: the boxes and counts of a candidate split, its cost, and
//! the choice among the candidates, with the facts the builder needs about them.
use vstd::prelude::*;
use crate::aabb::{Aabb, empty_box, grown, max_int, min_int};
use crate::geometry::{Bounds, Point3, box_within, half_area};
use super::node::BvhNode;

verus! {

/// The smallest box that takes in both boxes.
pub open spec fn join(a: Aabb, b: Aabb) -> Aabb {
    Aabb {
        bmin: Point3 { x: min_int(a.bmin.x, b.bmin.x), y: min_int(a.bmin.y, b.bmin.y), z: min_int(a.bmin.z, b.bmin.z) },
        bmax: Point3 { x: max_int(a.bmax.x, b.bmax.x), y: max_int(a.bmax.y, b.bmax.y), z: max_int(a.bmax.z, b.bmax.z) },
    }
}

/// The members' box over `[lo, hi)` joins the boxes over `[lo, k)` and `[k, hi)`.
pub proof fn lemma_members_concat(bounds: Seq<Bounds>, idx: Seq<usize>, lo: int, k: int, hi: int)
    requires
        lo <= k <= hi,
    ensures
        members_box(bounds, idx, lo, hi) == join(members_box(bounds, idx, lo, k), members_box(bounds, idx, k, hi)),
    decreases hi - k,
{
    if hi > k {
        lemma_members_concat(bounds, idx, lo, k, hi - 1);
    }
}

/// One side's box over `[lo, hi)` joins its boxes over `[lo, k)` and `[k, hi)`.
pub proof fn lemma_side_concat(bounds: Seq<Bounds>, centroids: Seq<Point3>, idx: Seq<usize>, lo: int, k: int, hi: int, axis: int, pos: int, left: bool)
    requires
        lo <= k <= hi,
    ensures
        side_box(bounds, centroids, idx, lo, hi, axis, pos, left) == join(
            side_box(bounds, centroids, idx, lo, k, axis, pos, left),
            side_box(bounds, centroids, idx, k, hi, axis, pos, left),
        ),
    decreases hi - k,
{
    if hi > k {
        lemma_side_concat(bounds, centroids, idx, lo, k, hi - 1, axis, pos, left);
    }
}

/// Where every member lies on the given side, that side's box is the members' box; where
/// none does, it is empty.
pub proof fn lemma_side_all_or_none(bounds: Seq<Bounds>, centroids: Seq<Point3>, idx: Seq<usize>, lo: int, k: int, axis: int, pos: int, left: bool)
    requires
        lo <= k,
    ensures
        (forall|p: int| lo <= p < k ==> #[trigger] goes_left(centroids, idx, p, axis, pos) == left) ==> side_box(
            bounds,
            centroids,
            idx,
            lo,
            k,
            axis,
            pos,
            left,
        ) == members_box(bounds, idx, lo, k),
        (forall|p: int| lo <= p < k ==> #[trigger] goes_left(centroids, idx, p, axis, pos) != left) ==> side_box(
            bounds,
            centroids,
            idx,
            lo,
            k,
            axis,
            pos,
            left,
        ) == empty_box(),
    decreases k - lo,
{
    if k > lo {
        lemma_side_all_or_none(bounds, centroids, idx, lo, k - 1, axis, pos, left);
    }
}

/// Exchanging two positions inside `[lo, hi)` keeps each side's box.
pub(crate) proof fn lemma_swap_keeps_side(bounds: Seq<Bounds>, centroids: Seq<Point3>, a: Seq<usize>, b: Seq<usize>, lo: int, i: int, j: int, hi: int, axis: int, pos: int, left: bool)
    requires
        0 <= lo <= i < j < hi,
        a.len() == b.len(),
        hi <= a.len(),
        b == a.update(i, a[j]).update(j, a[i]),
    ensures
        side_box(bounds, centroids, b, lo, hi, axis, pos, left) == side_box(bounds, centroids, a, lo, hi, axis, pos, left),
{
    lemma_side_concat(bounds, centroids, a, lo, i, hi, axis, pos, left);
    lemma_side_concat(bounds, centroids, a, i, i + 1, hi, axis, pos, left);
    lemma_side_concat(bounds, centroids, a, i + 1, j, hi, axis, pos, left);
    lemma_side_concat(bounds, centroids, a, j, j + 1, hi, axis, pos, left);
    lemma_side_concat(bounds, centroids, b, lo, i, hi, axis, pos, left);
    lemma_side_concat(bounds, centroids, b, i, i + 1, hi, axis, pos, left);
    lemma_side_concat(bounds, centroids, b, i + 1, j, hi, axis, pos, left);
    lemma_side_concat(bounds, centroids, b, j, j + 1, hi, axis, pos, left);
    assert(agree_on(a, b, lo, i));
    assert(agree_on(a, b, i + 1, j));
    assert(agree_on(a, b, j + 1, hi));
    lemma_frame_sides(bounds, centroids, a, b, lo, i, axis, pos, left);
    lemma_frame_sides(bounds, centroids, a, b, i + 1, j, axis, pos, left);
    lemma_frame_sides(bounds, centroids, a, b, j + 1, hi, axis, pos, left);
    assert(b[j] == a[i] && b[i] == a[j]);
    assert(side_box(bounds, centroids, a, i, i, axis, pos, left) == empty_box());
    assert(side_box(bounds, centroids, b, j, j, axis, pos, left) == empty_box());
    assert(side_box(bounds, centroids, a, j, j, axis, pos, left) == empty_box());
    assert(side_box(bounds, centroids, b, i, i, axis, pos, left) == empty_box());
    assert(goes_left(centroids, a, i, axis, pos) == goes_left(centroids, b, j, axis, pos));
    assert(goes_left(centroids, a, j, axis, pos) == goes_left(centroids, b, i, axis, pos));
    assert(side_box(bounds, centroids, a, i, i + 1, axis, pos, left) == side_box(bounds, centroids, b, j, j + 1, axis, pos, left));
    assert(side_box(bounds, centroids, a, j, j + 1, axis, pos, left) == side_box(bounds, centroids, b, i, i + 1, axis, pos, left));
}

/// All primitives share one centroid.
pub open spec fn one_centroid(centroids: Seq<Point3>) -> bool {
    forall|i: int, j: int| 0 <= i < centroids.len() && 0 <= j < centroids.len() ==> #[trigger] centroids[i] == #[trigger] centroids[j]
}

proof fn lemma_one_centroid_range(centroids: Seq<Point3>, idx: Seq<usize>, lo: int, k: int, axis: int)
    requires
        one_centroid(centroids),
        0 <= lo < k <= idx.len(),
        forall|p: int| 0 <= p < idx.len() ==> #[trigger] idx[p] < centroids.len(),
    ensures
        centroid_lo(centroids, idx, lo, k, axis) == centroids[idx[lo] as int].at(axis),
        centroid_hi(centroids, idx, lo, k, axis) == centroids[idx[lo] as int].at(axis),
    decreases k - lo,
{
    let c = centroids[idx[lo] as int].at(axis);
    assert(i32::MIN <= c <= i32::MAX);
    if k - 1 > lo {
        lemma_one_centroid_range(centroids, idx, lo, k - 1, axis);
        assert(centroids[idx[k - 1] as int] == centroids[idx[lo] as int]);
    } else {
        assert(centroid_lo(centroids, idx, lo, lo, axis) == i32::MAX as int);
        assert(centroid_hi(centroids, idx, lo, lo, axis) == i32::MIN as int);
    }
}

/// With a single centroid no axis offers a candidate plane, so no split is chosen.
pub proof fn lemma_one_centroid_no_split(bounds: Seq<Bounds>, centroids: Seq<Point3>, idx: Seq<usize>, lo: int, hi: int)
    requires
        one_centroid(centroids),
        0 <= lo < hi <= idx.len(),
        forall|p: int| 0 <= p < idx.len() ==> #[trigger] idx[p] < centroids.len(),
    ensures
        chosen_split(bounds, centroids, idx, lo, hi).2 == NO_SPLIT,
{
    lemma_one_centroid_range(centroids, idx, lo, hi, 0);
    lemma_one_centroid_range(centroids, idx, lo, hi, 1);
    lemma_one_centroid_range(centroids, idx, lo, hi, 2);
    lemma_skip_axis(bounds, centroids, idx, lo, hi, 0, 16);
    lemma_skip_axis(bounds, centroids, idx, lo, hi, 1, 16);
    lemma_skip_axis(bounds, centroids, idx, lo, hi, 2, 16);
    assert(chosen_split(bounds, centroids, idx, lo, hi) == best_split(bounds, centroids, idx, lo, hi, 48));
}

/// Exchanging two positions inside `[lo, hi)` keeps the members' box.
pub(crate) proof fn lemma_swap_keeps_members(bounds: Seq<Bounds>, a: Seq<usize>, b: Seq<usize>, lo: int, i: int, j: int, hi: int)
    requires
        0 <= lo <= i < j < hi,
        a.len() == b.len(),
        hi <= a.len(),
        b == a.update(i, a[j]).update(j, a[i]),
    ensures
        members_box(bounds, b, lo, hi) == members_box(bounds, a, lo, hi),
{
    lemma_members_concat(bounds, a, lo, i, hi);
    lemma_members_concat(bounds, a, i, i + 1, hi);
    lemma_members_concat(bounds, a, i + 1, j, hi);
    lemma_members_concat(bounds, a, j, j + 1, hi);
    lemma_members_concat(bounds, b, lo, i, hi);
    lemma_members_concat(bounds, b, i, i + 1, hi);
    lemma_members_concat(bounds, b, i + 1, j, hi);
    lemma_members_concat(bounds, b, j, j + 1, hi);
    assert(agree_on(a, b, lo, i));
    assert(agree_on(a, b, i + 1, j));
    assert(agree_on(a, b, j + 1, hi));
    lemma_frame_members(bounds, a, b, lo, i);
    lemma_frame_members(bounds, a, b, i + 1, j);
    lemma_frame_members(bounds, a, b, j + 1, hi);
    assert(b[j] == a[i] && b[i] == a[j]);
    assert(members_box(bounds, a, i, i) == empty_box() && members_box(bounds, b, j, j) == empty_box());
    assert(members_box(bounds, a, j, j) == empty_box() && members_box(bounds, b, i, i) == empty_box());
    assert(members_box(bounds, a, i, i + 1) == members_box(bounds, b, j, j + 1));
    assert(members_box(bounds, a, j, j + 1) == members_box(bounds, b, i, i + 1));
}

/// The cost that stands for "no useful split": above every cost of a real split.
pub const NO_SPLIT: u128 = 0xffff_ffff_ffff_ffff_ffff_ffff_ffff_ffff;

/// The number of candidate planes tried on each axis.
pub const SPLIT_SAMPLES: usize = 16;

/// The bounds of the primitive at position `p` of the permutation lie in `[lo, hi]`.
pub open spec fn member_within(bounds: Seq<Bounds>, idx: Seq<usize>, p: int, lo: Point3, hi: Point3) -> bool {
    box_within(bounds[idx[p] as int].aabb_min, bounds[idx[p] as int].aabb_max, lo, hi)
}

/// Every entry of `idx` names a primitive: it is below `n`.
pub open spec fn indexes_in_range(idx: Seq<usize>, n: int) -> bool {
    forall|p: int| 0 <= p < idx.len() ==> #[trigger] idx[p] < n
}

/// `idx` is a bijection on `[0, n)`: `n` entries, each below `n`, no two equal.
pub open spec fn is_permutation(idx: Seq<usize>, n: int) -> bool {
    &&& idx.len() == n
    &&& indexes_in_range(idx, n)
    &&& forall|p: int, q: int| 0 <= p < q < idx.len() ==> #[trigger] idx[p] != #[trigger] idx[q]
}

/// The box grown by both corners of the bounds of the primitives at positions `[lo, k)`.
pub open spec fn members_box(bounds: Seq<Bounds>, idx: Seq<usize>, lo: int, k: int) -> Aabb
    decreases k - lo,
{
    if k <= lo {
        empty_box()
    } else {
        let b = bounds[idx[k - 1] as int];
        grown(grown(members_box(bounds, idx, lo, k - 1), b.aabb_min), b.aabb_max)
    }
}

/// The centroid of the primitive at position `p` lies before the plane `pos` on `axis`.
pub open spec fn goes_left(centroids: Seq<Point3>, idx: Seq<usize>, p: int, axis: int, pos: int) -> bool {
    centroids[idx[p] as int].at(axis) < pos
}

/// The box of the members at positions `[lo, k)` on one side of the plane.
pub open spec fn side_box(
    bounds: Seq<Bounds>,
    centroids: Seq<Point3>,
    idx: Seq<usize>,
    lo: int,
    k: int,
    axis: int,
    pos: int,
    left: bool,
) -> Aabb
    decreases k - lo,
{
    if k <= lo {
        empty_box()
    } else {
        let prev = side_box(bounds, centroids, idx, lo, k - 1, axis, pos, left);
        let b = bounds[idx[k - 1] as int];
        if goes_left(centroids, idx, k - 1, axis, pos) == left {
            grown(grown(prev, b.aabb_min), b.aabb_max)
        } else {
            prev
        }
    }
}

/// The number of members at positions `[lo, k)` on one side of the plane.
pub open spec fn side_count(centroids: Seq<Point3>, idx: Seq<usize>, lo: int, k: int, axis: int, pos: int, left: bool) -> int
    decreases k - lo,
{
    if k <= lo {
        0
    } else {
        side_count(centroids, idx, lo, k - 1, axis, pos, left) + if goes_left(centroids, idx, k - 1, axis, pos)
            == left {
            1int
        } else {
            0
        }
    }
}

/// The surface-area-heuristic cost of splitting the members at `[lo, hi)` by the plane `pos`
/// on `axis`: each side's count times its box's half area. A plane that leaves one side
/// empty is no split, and neither is a cost of zero.
pub open spec fn sah_cost(
    bounds: Seq<Bounds>,
    centroids: Seq<Point3>,
    idx: Seq<usize>,
    lo: int,
    hi: int,
    axis: int,
    pos: int,
) -> int {
    let lc = side_count(centroids, idx, lo, hi, axis, pos, true);
    let rc = side_count(centroids, idx, lo, hi, axis, pos, false);
    let lb = side_box(bounds, centroids, idx, lo, hi, axis, pos, true);
    let rb = side_box(bounds, centroids, idx, lo, hi, axis, pos, false);
    let cost = lc * half_area(lb.bmin, lb.bmax) + rc * half_area(rb.bmin, rb.bmax);
    if lc > 0 && rc > 0 && cost > 0 { cost } else { NO_SPLIT as int }
}

/// Every bounds in `bounds` has ordered corners.
pub open spec fn all_bounds_wf(bounds: Seq<Bounds>) -> bool {
    forall|i: int| 0 <= i < bounds.len() ==> #[trigger] bounds[i].wf()
}

/// A box that took in a member takes it in once grown further.
pub(crate) proof fn lemma_grown_keeps(b: Aabb, p: Point3, lo: Point3, hi: Point3)
    requires
        box_within(lo, hi, b.bmin, b.bmax),
    ensures
        box_within(lo, hi, grown(b, p).bmin, grown(b, p).bmax),
{
}

/// The members' box takes in each member whose position it covers, and its corners are
/// ordered once it covers one.
pub proof fn lemma_members_box_contains(bounds: Seq<Bounds>, idx: Seq<usize>, lo: int, k: int)
    requires
        all_bounds_wf(bounds),
        indexes_in_range(idx, bounds.len() as int),
        0 <= lo <= k <= idx.len(),
    ensures
        forall|p: int| lo <= p < k ==> #[trigger] member_within(bounds, idx, p, members_box(bounds, idx, lo, k).bmin, members_box(bounds, idx, lo, k).bmax),
        lo < k ==> members_box(bounds, idx, lo, k).ordered(),
    decreases k - lo,
{
    if k > lo {
        lemma_members_box_contains(bounds, idx, lo, k - 1);
        let prev = members_box(bounds, idx, lo, k - 1);
        let b = bounds[idx[k - 1] as int];
        assert(idx[k - 1] < bounds.len());
        assert(b.wf());
        let g1 = grown(prev, b.aabb_min);
        let g2 = grown(g1, b.aabb_max);
        assert forall|p: int| lo <= p < k implies #[trigger] member_within(bounds, idx, p, g2.bmin, g2.bmax) by {
            if p < k - 1 {
                assert(member_within(bounds, idx, p, prev.bmin, prev.bmax));
                lemma_grown_keeps(prev, b.aabb_min, bounds[idx[p] as int].aabb_min, bounds[idx[p] as int].aabb_max);
                lemma_grown_keeps(g1, b.aabb_max, bounds[idx[p] as int].aabb_min, bounds[idx[p] as int].aabb_max);
            }
        }
    }
}

/// A box that takes in every member covered takes in the members' box.
pub proof fn lemma_members_box_within(bounds: Seq<Bounds>, idx: Seq<usize>, lo: int, k: int, outer: Aabb)
    requires
        all_bounds_wf(bounds),
        indexes_in_range(idx, bounds.len() as int),
        0 <= lo < k <= idx.len(),
        forall|p: int| lo <= p < k ==> #[trigger] member_within(bounds, idx, p, outer.bmin, outer.bmax),
    ensures
        box_within(members_box(bounds, idx, lo, k).bmin, members_box(bounds, idx, lo, k).bmax, outer.bmin, outer.bmax),
    decreases k - lo,
{
    let b = bounds[idx[k - 1] as int];
    assert(member_within(bounds, idx, k - 1, outer.bmin, outer.bmax));
    assert(b.wf());
    let m = members_box(bounds, idx, lo, k);
    if k - 1 > lo {
        lemma_members_box_within(bounds, idx, lo, k - 1, outer);
    } else {
        assert(members_box(bounds, idx, lo, k - 1) == empty_box());
    }
}

/// The least centroid coordinate on `axis` over positions `[lo, k)`.
pub open spec fn centroid_lo(centroids: Seq<Point3>, idx: Seq<usize>, lo: int, k: int, axis: int) -> int
    decreases k - lo,
{
    if k <= lo {
        i32::MAX as int
    } else {
        let prev = centroid_lo(centroids, idx, lo, k - 1, axis);
        let c = centroids[idx[k - 1] as int].at(axis);
        if c < prev { c } else { prev }
    }
}

/// The greatest centroid coordinate on `axis` over positions `[lo, k)`.
pub open spec fn centroid_hi(centroids: Seq<Point3>, idx: Seq<usize>, lo: int, k: int, axis: int) -> int
    decreases k - lo,
{
    if k <= lo {
        i32::MIN as int
    } else {
        let prev = centroid_hi(centroids, idx, lo, k - 1, axis);
        let c = centroids[idx[k - 1] as int].at(axis);
        if c > prev { c } else { prev }
    }
}

/// The `i`-th of the evenly spaced candidate planes from `cmin` towards `cmax`.
pub open spec fn candidate(cmin: int, cmax: int, i: int) -> int {
    cmin + (i * (cmax - cmin)) / (SPLIT_SAMPLES as int)
}

/// The best of the first `t` candidate planes (axis by axis, `SPLIT_SAMPLES` per axis)
/// for the members at `[lo, hi)`, as `(position, axis, cost)`. An axis on which all
/// centroids agree (or that has no members) offers no candidate; a later candidate wins only by a strictly lower cost.
pub open spec fn best_split(
    bounds: Seq<Bounds>,
    centroids: Seq<Point3>,
    idx: Seq<usize>,
    lo: int,
    hi: int,
    t: int,
) -> (int, int, int)
    decreases t,
{
    if t <= 0 {
        (0, 0, NO_SPLIT as int)
    } else {
        let prev = best_split(bounds, centroids, idx, lo, hi, t - 1);
        let axis = (t - 1) / (SPLIT_SAMPLES as int);
        let i = (t - 1) % (SPLIT_SAMPLES as int);
        let cmin = centroid_lo(centroids, idx, lo, hi, axis);
        let cmax = centroid_hi(centroids, idx, lo, hi, axis);
        if cmin >= cmax {
            prev
        } else {
            let pos = candidate(cmin, cmax, i);
            let c = sah_cost(bounds, centroids, idx, lo, hi, axis, pos);
            if c < prev.2 { (pos, axis, c) } else { prev }
        }
    }
}

/// The split chosen over all three axes.
pub open spec fn chosen_split(bounds: Seq<Bounds>, centroids: Seq<Point3>, idx: Seq<usize>, lo: int, hi: int) -> (int, int, int) {
    best_split(bounds, centroids, idx, lo, hi, 3 * (SPLIT_SAMPLES as int))
}

pub(crate) proof fn lemma_side_box_ordered(
    bounds: Seq<Bounds>,
    centroids: Seq<Point3>,
    idx: Seq<usize>,
    lo: int,
    k: int,
    axis: int,
    pos: int,
    left: bool,
)
    requires
        all_bounds_wf(bounds),
        indexes_in_range(idx, bounds.len() as int),
        0 <= lo <= k <= idx.len(),
    ensures
        0 <= side_count(centroids, idx, lo, k, axis, pos, left) <= k - lo,
        side_count(centroids, idx, lo, k, axis, pos, left) > 0 ==> side_box(bounds, centroids, idx, lo, k, axis, pos, left).ordered(),
    decreases k - lo,
{
    if k > lo {
        lemma_side_box_ordered(bounds, centroids, idx, lo, k - 1, axis, pos, left);
        assert(idx[k - 1] < bounds.len());
        assert(bounds[idx[k - 1] as int].wf());
    }
}

pub(crate) proof fn lemma_skip_axis(bounds: Seq<Bounds>, centroids: Seq<Point3>, idx: Seq<usize>, lo: int, hi: int, axis: int, j: int)
    requires
        0 <= axis < 3,
        0 <= j <= SPLIT_SAMPLES,
        centroid_lo(centroids, idx, lo, hi, axis) >= centroid_hi(centroids, idx, lo, hi, axis),
    ensures
        best_split(bounds, centroids, idx, lo, hi, axis * 16 + j) == best_split(bounds, centroids, idx, lo, hi, axis * 16),
    decreases j,
{
    if j > 0 {
        lemma_skip_axis(bounds, centroids, idx, lo, hi, axis, j - 1);
        let t = axis * 16 + j;
        assert((t - 1) / 16 == axis && (t - 1) % 16 == j - 1) by (nonlinear_arith)
            requires
                t == axis * 16 + j, 0 < j <= 16,
        ;
    }
}

pub(crate) proof fn lemma_centroid_range_ordered(centroids: Seq<Point3>, idx: Seq<usize>, lo: int, k: int, axis: int)
    requires
        0 <= lo <= k,
    ensures
        i32::MIN <= centroid_lo(centroids, idx, lo, k, axis) <= i32::MAX,
        i32::MIN <= centroid_hi(centroids, idx, lo, k, axis) <= i32::MAX,
        k > lo ==> centroid_lo(centroids, idx, lo, k, axis) <= centroid_hi(centroids, idx, lo, k, axis),
    decreases k - lo,
{
    if k > lo {
        lemma_centroid_range_ordered(centroids, idx, lo, k - 1, axis);
        let c = centroids[idx[k - 1] as int];
        assert(i32::MIN <= c.at(axis) <= i32::MAX);
    }
}

/// Positions `[lo, mid)` of the permutation hold the members before the plane `pos` on
/// `axis`, and positions `[mid, hi)` the others.
pub open spec fn split_at(centroids: Seq<Point3>, idx: Seq<usize>, lo: int, mid: int, hi: int, axis: int, pos: int) -> bool {
    &&& lo <= mid <= hi
    &&& forall|p: int| lo <= p < mid ==> #[trigger] goes_left(centroids, idx, p, axis, pos)
    &&& forall|p: int| mid <= p < hi ==> !#[trigger] goes_left(centroids, idx, p, axis, pos)
}

/// The node made over the members at `[lo, hi)`: their box and their slice.
pub open spec fn leaf_over(bounds: Seq<Bounds>, idx: Seq<usize>, lo: int, hi: int) -> BvhNode {
    BvhNode {
        aabb_min: members_box(bounds, idx, lo, hi).bmin,
        aabb_max: members_box(bounds, idx, lo, hi).bmax,
        first_object: lo as usize,
        object_count: (hi - lo) as usize,
    }
}

/// Two permutations that agree on `[lo, hi)`.
pub open spec fn agree_on(a: Seq<usize>, b: Seq<usize>, lo: int, hi: int) -> bool {
    forall|p: int| lo <= p < hi ==> #[trigger] a[p] == b[p]
}

pub(crate) proof fn lemma_frame_members(bounds: Seq<Bounds>, a: Seq<usize>, b: Seq<usize>, lo: int, k: int)
    requires
        agree_on(a, b, lo, k),
    ensures
        members_box(bounds, a, lo, k) == members_box(bounds, b, lo, k),
    decreases k - lo,
{
    if k > lo {
        assert(a[k - 1] == b[k - 1]);
        lemma_frame_members(bounds, a, b, lo, k - 1);
    }
}

pub(crate) proof fn lemma_frame_sides(bounds: Seq<Bounds>, centroids: Seq<Point3>, a: Seq<usize>, b: Seq<usize>, lo: int, k: int, axis: int, pos: int, left: bool)
    requires
        agree_on(a, b, lo, k),
    ensures
        side_box(bounds, centroids, a, lo, k, axis, pos, left) == side_box(bounds, centroids, b, lo, k, axis, pos, left),
        side_count(centroids, a, lo, k, axis, pos, left) == side_count(centroids, b, lo, k, axis, pos, left),
    decreases k - lo,
{
    if k > lo {
        assert(a[k - 1] == b[k - 1]);
        lemma_frame_sides(bounds, centroids, a, b, lo, k - 1, axis, pos, left);
    }
}

pub(crate) proof fn lemma_frame_centroids(centroids: Seq<Point3>, a: Seq<usize>, b: Seq<usize>, lo: int, k: int, axis: int)
    requires
        agree_on(a, b, lo, k),
    ensures
        centroid_lo(centroids, a, lo, k, axis) == centroid_lo(centroids, b, lo, k, axis),
        centroid_hi(centroids, a, lo, k, axis) == centroid_hi(centroids, b, lo, k, axis),
    decreases k - lo,
{
    if k > lo {
        assert(a[k - 1] == b[k - 1]);
        lemma_frame_centroids(centroids, a, b, lo, k - 1, axis);
    }
}

pub(crate) proof fn lemma_frame_split(bounds: Seq<Bounds>, centroids: Seq<Point3>, a: Seq<usize>, b: Seq<usize>, lo: int, hi: int, t: int)
    requires
        agree_on(a, b, lo, hi),
    ensures
        best_split(bounds, centroids, a, lo, hi, t) == best_split(bounds, centroids, b, lo, hi, t),
    decreases t,
{
    if t > 0 {
        lemma_frame_split(bounds, centroids, a, b, lo, hi, t - 1);
        let axis = (t - 1) / 16;
        lemma_frame_centroids(centroids, a, b, lo, hi, axis);
        let pos = candidate(centroid_lo(centroids, a, lo, hi, axis), centroid_hi(centroids, a, lo, hi, axis), (t - 1) % 16);
        lemma_frame_sides(bounds, centroids, a, b, lo, hi, axis, pos, true);
        lemma_frame_sides(bounds, centroids, a, b, lo, hi, axis, pos, false);
    }
}

/// The two sides share out the members.
pub(crate) proof fn lemma_side_counts_sum(centroids: Seq<Point3>, idx: Seq<usize>, lo: int, k: int, axis: int, pos: int)
    requires
        lo <= k,
    ensures
        side_count(centroids, idx, lo, k, axis, pos, true) + side_count(centroids, idx, lo, k, axis, pos, false) == k - lo,
        side_count(centroids, idx, lo, k, axis, pos, true) >= 0,
        side_count(centroids, idx, lo, k, axis, pos, false) >= 0,
    decreases k - lo,
{
    if k > lo {
        lemma_side_counts_sum(centroids, idx, lo, k - 1, axis, pos);
    }
}

/// The left side's count over `[lo, hi)` splits at `k`.
pub(crate) proof fn lemma_side_count_split(centroids: Seq<Point3>, idx: Seq<usize>, lo: int, k: int, hi: int, axis: int, pos: int)
    requires
        lo <= k <= hi,
    ensures
        side_count(centroids, idx, lo, hi, axis, pos, true) == side_count(centroids, idx, lo, k, axis, pos, true)
            + side_count(centroids, idx, k, hi, axis, pos, true),
    decreases hi - k,
{
    if hi > k {
        lemma_side_count_split(centroids, idx, lo, k, hi - 1, axis, pos);
    }
}

/// Exchanging two positions inside `[lo, hi)` keeps the number of members on the left.
pub(crate) proof fn lemma_swap_keeps_count(centroids: Seq<Point3>, a: Seq<usize>, b: Seq<usize>, lo: int, i: int, j: int, hi: int, axis: int, pos: int)
    requires
        0 <= lo <= i < j < hi,
        a.len() == b.len(),
        hi <= a.len(),
        b == a.update(i, a[j]).update(j, a[i]),
    ensures
        side_count(centroids, b, lo, hi, axis, pos, true) == side_count(centroids, a, lo, hi, axis, pos, true),
{
    lemma_side_count_split(centroids, a, lo, i, hi, axis, pos);
    lemma_side_count_split(centroids, a, i, i + 1, hi, axis, pos);
    lemma_side_count_split(centroids, a, i + 1, j, hi, axis, pos);
    lemma_side_count_split(centroids, a, j, j + 1, hi, axis, pos);
    lemma_side_count_split(centroids, b, lo, i, hi, axis, pos);
    lemma_side_count_split(centroids, b, i, i + 1, hi, axis, pos);
    lemma_side_count_split(centroids, b, i + 1, j, hi, axis, pos);
    lemma_side_count_split(centroids, b, j, j + 1, hi, axis, pos);
    assert(agree_on(a, b, lo, i));
    assert(agree_on(a, b, i + 1, j));
    assert(agree_on(a, b, j + 1, hi));
    lemma_frame_sides(Seq::empty(), centroids, a, b, lo, i, axis, pos, true);
    lemma_frame_sides(Seq::empty(), centroids, a, b, i + 1, j, axis, pos, true);
    lemma_frame_sides(Seq::empty(), centroids, a, b, j + 1, hi, axis, pos, true);
    assert(b[j] == a[i] && b[i] == a[j]);
    assert(side_count(centroids, a, i, i, axis, pos, true) == 0);
    assert(side_count(centroids, a, j, j, axis, pos, true) == 0);
    assert(side_count(centroids, b, i, i, axis, pos, true) == 0);
    assert(side_count(centroids, b, j, j, axis, pos, true) == 0);
    assert(goes_left(centroids, a, i, axis, pos) == goes_left(centroids, b, j, axis, pos));
    assert(goes_left(centroids, a, j, axis, pos) == goes_left(centroids, b, i, axis, pos));
}

/// Once split at `mid`, the left side holds exactly the positions before `mid`.
pub(crate) proof fn lemma_split_count(centroids: Seq<Point3>, idx: Seq<usize>, lo: int, mid: int, k: int, axis: int, pos: int)
    requires
        lo <= mid,
        mid <= k,
        forall|p: int| lo <= p < mid ==> #[trigger] goes_left(centroids, idx, p, axis, pos),
        forall|p: int| mid <= p < k ==> !#[trigger] goes_left(centroids, idx, p, axis, pos),
    ensures
        side_count(centroids, idx, lo, k, axis, pos, true) == mid - lo,
    decreases k - lo,
{
    if k > mid {
        lemma_split_count(centroids, idx, lo, mid, k - 1, axis, pos);
    } else if k > lo {
        lemma_split_count(centroids, idx, lo, k - 1, k - 1, axis, pos);
    }
}

/// A chosen split with a real cost is a candidate on an axis, and costs what the heuristic says.
pub(crate) proof fn lemma_best_is_candidate(bounds: Seq<Bounds>, centroids: Seq<Point3>, idx: Seq<usize>, lo: int, hi: int, t: int)
    requires
        0 <= t <= 48,
        best_split(bounds, centroids, idx, lo, hi, t).2 < NO_SPLIT,
    ensures
        0 <= best_split(bounds, centroids, idx, lo, hi, t).1 < 3,
        best_split(bounds, centroids, idx, lo, hi, t).2 == sah_cost(
            bounds,
            centroids,
            idx,
            lo,
            hi,
            best_split(bounds, centroids, idx, lo, hi, t).1,
            best_split(bounds, centroids, idx, lo, hi, t).0,
        ),
    decreases t,
{
    if t > 0 {
        let prev = best_split(bounds, centroids, idx, lo, hi, t - 1);
        assert(0 <= (t - 1) / 16 < 3) by (nonlinear_arith)
            requires
                0 < t <= 48,
        ;
        if best_split(bounds, centroids, idx, lo, hi, t) == prev {
            lemma_best_is_candidate(bounds, centroids, idx, lo, hi, t - 1);
        }
    }
}

/// No candidate plane lowers the cost of the leaf `node`: the best split costs at least
/// the leaf's own cost, its count times its box's half area.
pub open spec fn leaf_settled(bounds: Seq<Bounds>, centroids: Seq<Point3>, idx: Seq<usize>, node: BvhNode) -> bool {
    chosen_split(bounds, centroids, idx, node.first_object as int, node.first_object + node.object_count).2 >= node.object_count
        * half_area(node.aabb_min, node.aabb_max)
}

/// The node's box is the box of the members in its slice.
pub open spec fn box_is_hull(bounds: Seq<Bounds>, idx: Seq<usize>, node: BvhNode) -> bool {
    &&& node.aabb_min == members_box(bounds, idx, node.first_object as int, node.first_object + node.object_count).bmin
    &&& node.aabb_max == members_box(bounds, idx, node.first_object as int, node.first_object + node.object_count).bmax
}

} // verus!
