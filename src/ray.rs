use vstd::prelude::*;
use crate::geometry::{Point3, box_within};

verus! {

/// A ray: an origin and a direction, in fixed-point coordinates.
#[derive(Clone, Copy, Debug, PartialEq, Eq, Structural)]
pub struct Ray {
    pub origin: Point3,
    pub direction: Point3,
}

impl Ray {
    pub fn new(origin: Point3, direction: Point3) -> (r: Ray)
        ensures
            r == (Ray { origin, direction }),
    {
        Ray { origin, direction }
    }

    pub fn get_direction(&self) -> (r: Point3)
        ensures
            r == self.direction,
    {
        self.direction
    }
}

/// A parameter along a ray, `num / den`, with `den > 0`.
#[derive(Clone, Copy, Debug, PartialEq, Eq, Structural)]
pub struct Fraction {
    pub num: i64,
    pub den: i64,
}

impl Fraction {
    /// The numerator and denominator are small enough to compare by cross-multiplying.
    pub open spec fn bounded(self) -> bool {
        -0x2_0000_0000 < self.num < 0x2_0000_0000 && 0 < self.den <= 0x8000_0000
    }

    /// `self` is at most `other` as a rational number.
    pub open spec fn le(self, other: Fraction) -> bool {
        self.num * other.den <= other.num * self.den
    }

    /// `self` is less than `other` as a rational number.
    pub open spec fn lt(self, other: Fraction) -> bool {
        self.num * other.den < other.num * self.den
    }

    /// Compares two fractions as rational numbers.
    pub fn less_than(&self, other: &Fraction) -> (r: bool)
        requires
            self.bounded(),
            other.bounded(),
        ensures
            r == self.lt(*other),
    {
        proof {
            lemma_cross_fits(self.num as int, other.den as int);
            lemma_cross_fits(other.num as int, self.den as int);
        }
        let a = self.num as i128 * other.den as i128;
        let b = other.num as i128 * self.den as i128;
        a < b
    }
}

proof fn lemma_cross_fits(num: int, den: int)
    requires
        -0x2_0000_0000 < num < 0x2_0000_0000,
        0 < den <= 0x8000_0000,
    ensures
        -0x1_0000_0000_0000_0000 < num * den < 0x1_0000_0000_0000_0000,
{
    assert(-0x1_0000_0000_0000_0000 < num * den < 0x1_0000_0000_0000_0000) by (nonlinear_arith)
        requires
            -0x2_0000_0000 < num < 0x2_0000_0000, 0 < den <= 0x8000_0000,
    ;
}

/// On one axis (origin `o`, direction `d`, slab `[mn, mx]`): the parameter at which the
/// ray enters the slab, unless it runs parallel to it.
pub open spec fn axis_entry(o: i32, d: i32, mn: i32, mx: i32) -> Option<Fraction> {
    if d > 0 {
        Some(Fraction { num: (mn - o) as i64, den: d as i64 })
    } else if d < 0 {
        Some(Fraction { num: (o - mx) as i64, den: -d as i64 })
    } else {
        None
    }
}

/// On one axis: the parameter at which the ray leaves the slab, unless it runs parallel.
pub open spec fn axis_exit(o: i32, d: i32, mn: i32, mx: i32) -> Option<Fraction> {
    if d > 0 {
        Some(Fraction { num: (mx - o) as i64, den: d as i64 })
    } else if d < 0 {
        Some(Fraction { num: (o - mn) as i64, den: -d as i64 })
    } else {
        None
    }
}

/// On one axis: the ray runs parallel to the slab and outside it.
pub open spec fn axis_blocked(o: i32, d: i32, mn: i32, mx: i32) -> bool {
    d == 0 && (o < mn || o > mx)
}

/// The later of two entry parameters; `None` stands for minus infinity.
pub open spec fn later(a: Option<Fraction>, b: Option<Fraction>) -> Option<Fraction> {
    match (a, b) {
        (None, _) => b,
        (_, None) => a,
        (Some(x), Some(y)) => if x.lt(y) { b } else { a },
    }
}

/// The earlier of two exit parameters; `None` stands for plus infinity.
pub open spec fn earlier(a: Option<Fraction>, b: Option<Fraction>) -> Option<Fraction> {
    match (a, b) {
        (None, _) => b,
        (_, None) => a,
        (Some(x), Some(y)) => if y.lt(x) { b } else { a },
    }
}

/// The parameter at which the ray's line enters the box `[lo, hi]`: the latest entry
/// over the three axes.
pub open spec fn slab_entry(ray: Ray, lo: Point3, hi: Point3) -> Option<Fraction> {
    later(
        later(
            axis_entry(ray.origin.x, ray.direction.x, lo.x, hi.x),
            axis_entry(ray.origin.y, ray.direction.y, lo.y, hi.y),
        ),
        axis_entry(ray.origin.z, ray.direction.z, lo.z, hi.z),
    )
}

/// The parameter at which the ray's line leaves the box: the earliest exit over the axes.
pub open spec fn slab_exit(ray: Ray, lo: Point3, hi: Point3) -> Option<Fraction> {
    earlier(
        earlier(
            axis_exit(ray.origin.x, ray.direction.x, lo.x, hi.x),
            axis_exit(ray.origin.y, ray.direction.y, lo.y, hi.y),
        ),
        axis_exit(ray.origin.z, ray.direction.z, lo.z, hi.z),
    )
}

/// The ray meets the box `[lo, hi]`: it is not held outside by a parallel axis, it moves
/// (some axis is not parallel), and it leaves the box after it enters and after its origin.
pub open spec fn slab_hit(ray: Ray, lo: Point3, hi: Point3) -> bool {
    &&& !axis_blocked(ray.origin.x, ray.direction.x, lo.x, hi.x)
    &&& !axis_blocked(ray.origin.y, ray.direction.y, lo.y, hi.y)
    &&& !axis_blocked(ray.origin.z, ray.direction.z, lo.z, hi.z)
    &&& slab_exit(ray, lo, hi) is Some
    &&& slab_entry(ray, lo, hi) is Some
    &&& slab_exit(ray, lo, hi)->Some_0.num > 0
    &&& slab_entry(ray, lo, hi)->Some_0.le(slab_exit(ray, lo, hi)->Some_0)
}

/// `a` is at most `b` as an entry parameter (`None` standing for minus infinity on both
/// sides, so only `None` and `None` compare).
pub open spec fn opt_le(a: Option<Fraction>, b: Option<Fraction>) -> bool {
    match (a, b) {
        (None, None) => true,
        (Some(x), Some(y)) => x.le(y),
        _ => false,
    }
}

pub proof fn lemma_frac_trans(a: Fraction, b: Fraction, c: Fraction)
    requires
        a.den > 0,
        b.den > 0,
        c.den > 0,
    ensures
        a.le(b) && b.le(c) ==> a.le(c),
        a.le(b) && b.lt(c) ==> a.lt(c),
        a.lt(b) && b.le(c) ==> a.lt(c),
{
    let (an, ad, bn, bd, cn, cd) = (a.num as int, a.den as int, b.num as int, b.den as int, c.num as int, c.den as int);
    assert(an * bd <= bn * ad && bn * cd <= cn * bd ==> an * cd <= cn * ad) by (nonlinear_arith)
        requires
            ad > 0, bd > 0, cd > 0,
    ;
    assert(an * bd <= bn * ad && bn * cd < cn * bd ==> an * cd < cn * ad) by (nonlinear_arith)
        requires
            ad > 0, bd > 0, cd > 0,
    ;
    assert(an * bd < bn * ad && bn * cd <= cn * bd ==> an * cd < cn * ad) by (nonlinear_arith)
        requires
            ad > 0, bd > 0, cd > 0,
    ;
}

/// On one axis, a wider slab is entered no later and left no earlier.
proof fn lemma_axis_mono(o: i32, d: i32, mn: i32, mx: i32, omn: i32, omx: i32)
    requires
        omn <= mn,
        mx <= omx,
    ensures
        opt_le(axis_entry(o, d, omn, omx), axis_entry(o, d, mn, mx)),
        opt_le(axis_exit(o, d, mn, mx), axis_exit(o, d, omn, omx)),
        axis_blocked(o, d, omn, omx) ==> axis_blocked(o, d, mn, mx),
        (axis_entry(o, d, mn, mx) is Some) == (d != 0),
        (axis_exit(o, d, mn, mx) is Some) == (d != 0),
        (axis_entry(o, d, omn, omx) is Some) == (d != 0),
        (axis_exit(o, d, omn, omx) is Some) == (d != 0),
        d != 0 ==> axis_entry(o, d, mn, mx)->Some_0.den > 0 && axis_exit(o, d, mn, mx)->Some_0.den > 0,
        d != 0 ==> axis_entry(o, d, omn, omx)->Some_0.den > 0 && axis_exit(o, d, omn, omx)->Some_0.den > 0,
{
    if d > 0 {
        assert((omn - o) * d <= (mn - o) * d) by (nonlinear_arith)
            requires
                omn <= mn, d > 0,
        ;
        assert((mx - o) * d <= (omx - o) * d) by (nonlinear_arith)
            requires
                mx <= omx, d > 0,
        ;
    } else if d < 0 {
        assert((o - omx) * (-d) <= (o - mx) * (-d)) by (nonlinear_arith)
            requires
                mx <= omx, d < 0,
        ;
        assert((o - mn) * (-d) <= (o - omn) * (-d)) by (nonlinear_arith)
            requires
                omn <= mn, d < 0,
        ;
    }
}

proof fn lemma_later_mono(a1: Option<Fraction>, a2: Option<Fraction>, b1: Option<Fraction>, b2: Option<Fraction>)
    requires
        opt_le(a1, b1),
        opt_le(a2, b2),
        a1 is Some ==> a1->Some_0.den > 0,
        a2 is Some ==> a2->Some_0.den > 0,
        b1 is Some ==> b1->Some_0.den > 0,
        b2 is Some ==> b2->Some_0.den > 0,
    ensures
        opt_le(later(a1, a2), later(b1, b2)),
        later(a1, a2) is Some ==> later(a1, a2)->Some_0.den > 0,
        later(b1, b2) is Some ==> later(b1, b2)->Some_0.den > 0,
{
    if a1 is Some && a2 is Some {
        let (x1, x2, y1, y2) = (a1->Some_0, a2->Some_0, b1->Some_0, b2->Some_0);
        lemma_frac_trans(x1, y1, y2);
        lemma_frac_trans(x2, y2, y1);
        lemma_frac_trans(x1, x2, y2);
        lemma_frac_trans(x2, x1, y1);
        assert(x1.lt(x2) || x2.le(x1)) by (nonlinear_arith)
            requires
                x1.den > 0, x2.den > 0,
        ;
        assert(y1.lt(y2) || y2.le(y1)) by (nonlinear_arith)
            requires
                y1.den > 0, y2.den > 0,
        ;
        assert(x1.lt(x2) ==> x1.le(x2));
        assert(y1.lt(y2) ==> y1.le(y2));
    }
}

proof fn lemma_earlier_mono(a1: Option<Fraction>, a2: Option<Fraction>, b1: Option<Fraction>, b2: Option<Fraction>)
    requires
        opt_le(a1, b1),
        opt_le(a2, b2),
        a1 is Some ==> a1->Some_0.den > 0,
        a2 is Some ==> a2->Some_0.den > 0,
        b1 is Some ==> b1->Some_0.den > 0,
        b2 is Some ==> b2->Some_0.den > 0,
    ensures
        opt_le(earlier(a1, a2), earlier(b1, b2)),
        earlier(a1, a2) is Some ==> earlier(a1, a2)->Some_0.den > 0,
        earlier(b1, b2) is Some ==> earlier(b1, b2)->Some_0.den > 0,
{
    if a1 is Some && a2 is Some {
        let (x1, x2, y1, y2) = (a1->Some_0, a2->Some_0, b1->Some_0, b2->Some_0);
        lemma_frac_trans(x1, y1, y2);
        lemma_frac_trans(x2, y2, y1);
        lemma_frac_trans(x1, x2, y2);
        lemma_frac_trans(x2, x1, y1);
        assert(x1.lt(x2) || x2.le(x1)) by (nonlinear_arith)
            requires
                x1.den > 0, x2.den > 0,
        ;
        assert(y1.lt(y2) || y2.le(y1)) by (nonlinear_arith)
            requires
                y1.den > 0, y2.den > 0,
        ;
        assert(x2.lt(x1) ==> x2.le(x1));
        assert(y2.lt(y1) ==> y2.le(y1));
        assert(x1.le(x2) || x2.lt(x1)) by (nonlinear_arith)
            requires
                x1.den > 0, x2.den > 0,
        ;
    }
}

/// A box that takes in another is met by every ray that meets the inner one, and entered
/// no later.
pub proof fn lemma_slab_within(ray: Ray, lo: Point3, hi: Point3, outer_lo: Point3, outer_hi: Point3)
    requires
        box_within(lo, hi, outer_lo, outer_hi),
        slab_hit(ray, lo, hi),
    ensures
        slab_hit(ray, outer_lo, outer_hi),
        slab_entry(ray, outer_lo, outer_hi)->Some_0.le(slab_entry(ray, lo, hi)->Some_0),
        slab_entry(ray, outer_lo, outer_hi)->Some_0.den > 0,
        slab_entry(ray, lo, hi)->Some_0.den > 0,
{
    let (o, d) = (ray.origin, ray.direction);
    lemma_axis_mono(o.x, d.x, lo.x, hi.x, outer_lo.x, outer_hi.x);
    lemma_axis_mono(o.y, d.y, lo.y, hi.y, outer_lo.y, outer_hi.y);
    lemma_axis_mono(o.z, d.z, lo.z, hi.z, outer_lo.z, outer_hi.z);
    let ex = axis_entry(o.x, d.x, outer_lo.x, outer_hi.x);
    let ey = axis_entry(o.y, d.y, outer_lo.y, outer_hi.y);
    let ez = axis_entry(o.z, d.z, outer_lo.z, outer_hi.z);
    let ix = axis_entry(o.x, d.x, lo.x, hi.x);
    let iy = axis_entry(o.y, d.y, lo.y, hi.y);
    let iz = axis_entry(o.z, d.z, lo.z, hi.z);
    lemma_later_mono(ex, ey, ix, iy);
    lemma_later_mono(later(ex, ey), ez, later(ix, iy), iz);
    let xx = axis_exit(o.x, d.x, lo.x, hi.x);
    let xy = axis_exit(o.y, d.y, lo.y, hi.y);
    let xz = axis_exit(o.z, d.z, lo.z, hi.z);
    let ox = axis_exit(o.x, d.x, outer_lo.x, outer_hi.x);
    let oy = axis_exit(o.y, d.y, outer_lo.y, outer_hi.y);
    let oz = axis_exit(o.z, d.z, outer_lo.z, outer_hi.z);
    lemma_earlier_mono(xx, xy, ox, oy);
    lemma_earlier_mono(earlier(xx, xy), xz, earlier(ox, oy), oz);
    let e_out = slab_entry(ray, outer_lo, outer_hi)->Some_0;
    let e_in = slab_entry(ray, lo, hi)->Some_0;
    let x_in = slab_exit(ray, lo, hi)->Some_0;
    let x_out = slab_exit(ray, outer_lo, outer_hi)->Some_0;
    lemma_frac_trans(e_out, e_in, x_in);
    lemma_frac_trans(e_out, x_in, x_out);
    assert(x_out.num > 0) by (nonlinear_arith)
        requires
            x_in.num * x_out.den <= x_out.num * x_in.den, x_in.num > 0, x_in.den > 0, x_out.den > 0,
    ;
}

/// A hit at `t` lies where the box `[lo, hi]` can hold it: the ray meets the box and
/// enters it no later than `t`.
pub open spec fn hit_held(ray: Ray, lo: Point3, hi: Point3, t: Fraction) -> bool {
    slab_hit(ray, lo, hi) && slab_entry(ray, lo, hi)->Some_0.le(t)
}

proof fn lemma_axis_bounded(o: i32, d: i32, mn: i32, mx: i32)
    ensures
        axis_entry(o, d, mn, mx) is Some ==> axis_entry(o, d, mn, mx)->Some_0.bounded(),
        axis_exit(o, d, mn, mx) is Some ==> axis_exit(o, d, mn, mx)->Some_0.bounded(),
{
}

/// The entry and exit parameters of a box are small enough to compare.
pub proof fn lemma_slab_bounded(ray: Ray, lo: Point3, hi: Point3)
    ensures
        slab_entry(ray, lo, hi) is Some ==> slab_entry(ray, lo, hi)->Some_0.bounded(),
        slab_exit(ray, lo, hi) is Some ==> slab_exit(ray, lo, hi)->Some_0.bounded(),
{
    lemma_axis_bounded(ray.origin.x, ray.direction.x, lo.x, hi.x);
    lemma_axis_bounded(ray.origin.y, ray.direction.y, lo.y, hi.y);
    lemma_axis_bounded(ray.origin.z, ray.direction.z, lo.z, hi.z);
}

/// The entry and exit parameters of one axis, and whether it holds the ray outside.
fn axis_bounds(o: i32, d: i32, mn: i32, mx: i32) -> (r: (bool, Option<Fraction>, Option<Fraction>))
    ensures
        r == (axis_blocked(o, d, mn, mx), axis_entry(o, d, mn, mx), axis_exit(o, d, mn, mx)),
        r.1 is Some ==> r.1->Some_0.bounded(),
        r.2 is Some ==> r.2->Some_0.bounded(),
        (r.1 is Some) == (r.2 is Some),
{
    if d > 0 {
        (
            false,
            Some(Fraction { num: mn as i64 - o as i64, den: d as i64 }),
            Some(Fraction { num: mx as i64 - o as i64, den: d as i64 }),
        )
    } else if d < 0 {
        (
            false,
            Some(Fraction { num: o as i64 - mx as i64, den: -(d as i64) }),
            Some(Fraction { num: o as i64 - mn as i64, den: -(d as i64) }),
        )
    } else {
        (o < mn || o > mx, None, None)
    }
}

fn later_of(a: Option<Fraction>, b: Option<Fraction>) -> (r: Option<Fraction>)
    requires
        a is Some ==> a->Some_0.bounded(),
        b is Some ==> b->Some_0.bounded(),
    ensures
        r == later(a, b),
        r is Some ==> r->Some_0.bounded(),
{
    match (a, b) {
        (None, _) => b,
        (_, None) => a,
        (Some(x), Some(y)) => if x.less_than(&y) { b } else { a },
    }
}

fn earlier_of(a: Option<Fraction>, b: Option<Fraction>) -> (r: Option<Fraction>)
    requires
        a is Some ==> a->Some_0.bounded(),
        b is Some ==> b->Some_0.bounded(),
    ensures
        r == earlier(a, b),
        r is Some ==> r->Some_0.bounded(),
{
    match (a, b) {
        (None, _) => b,
        (_, None) => a,
        (Some(x), Some(y)) => if y.less_than(&x) { b } else { a },
    }
}

/// Whether the box `[lo, hi]` holds the ray outside on a parallel axis, and the ray's
/// entry and exit parameters for the box.
pub fn slab(ray: &Ray, lo: Point3, hi: Point3) -> (r: (bool, Option<Fraction>, Option<Fraction>))
    ensures
        r.0 == (axis_blocked(ray.origin.x, ray.direction.x, lo.x, hi.x) || axis_blocked(
            ray.origin.y,
            ray.direction.y,
            lo.y,
            hi.y,
        ) || axis_blocked(ray.origin.z, ray.direction.z, lo.z, hi.z)),
        r.1 == slab_entry(*ray, lo, hi),
        r.2 == slab_exit(*ray, lo, hi),
        r.1 is Some ==> r.1->Some_0.bounded(),
        r.2 is Some ==> r.2->Some_0.bounded(),
        (r.1 is Some) == (r.2 is Some),
{
    let (bx, ex, xx) = axis_bounds(ray.origin.x, ray.direction.x, lo.x, hi.x);
    let (by, ey, xy) = axis_bounds(ray.origin.y, ray.direction.y, lo.y, hi.y);
    let (bz, ez, xz) = axis_bounds(ray.origin.z, ray.direction.z, lo.z, hi.z);
    let entry = later_of(later_of(ex, ey), ez);
    let exit = earlier_of(earlier_of(xx, xy), xz);
    (bx || by || bz, entry, exit)
}

/// Whether the ray meets the box `[lo, hi]` (see `slab_hit`), and if so where it enters.
pub fn slab_test(ray: &Ray, lo: Point3, hi: Point3) -> (r: Option<Fraction>)
    ensures
        r is Some <==> slab_hit(*ray, lo, hi),
        r is Some ==> r == slab_entry(*ray, lo, hi) && r->Some_0.bounded(),
{
    let (blocked, entry, exit) = slab(ray, lo, hi);
    if blocked {
        return None;
    }
    match (entry, exit) {
        (Some(t_in), Some(t_out)) => {
            if t_out.num > 0 && !t_out.less_than(&t_in) {
                Some(t_in)
            } else {
                None
            }
        },
        _ => None,
    }
}

} // verus!
