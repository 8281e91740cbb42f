use vstd::prelude::*;
use crate::ray::{Fraction, Ray, lemma_frac_trans};

verus! {

/// The nearest hit of a query: the parameter along the ray and the primitive's index.
#[derive(Clone, Copy, Debug, PartialEq, Eq, Structural)]
pub struct Hit {
    pub t: Fraction,
    pub object: usize,
}

/// A primitive that a ray can hit.
pub trait Hittable {
    /// Where the ray hits the primitive, if it does.
    spec fn hit_spec(&self, ray: Ray) -> Option<Fraction>;

    fn intersect(&self, ray: &Ray) -> (r: Option<Fraction>)
        ensures
            r == self.hit_spec(*ray),
            r is Some ==> r->Some_0.bounded(),
    ;
}

/// `h` names a primitive of `objects` that the ray hits at `h.t`.
pub open spec fn valid_hit<T: Hittable>(h: Hit, ray: Ray, objects: Seq<T>) -> bool {
    &&& h.object < objects.len()
    &&& objects[h.object as int].hit_spec(ray) == Some(h.t)
    &&& h.t.bounded()
}

/// `h` is a result that the primitive test `hit_of` can give for primitive `h.object`.
pub open spec fn hit_by<F: Fn(usize) -> Option<Fraction>>(hit_of: &F, h: Hit) -> bool {
    hit_of.ensures((h.object,), Some(h.t)) && h.t.bounded()
}

/// The primitive test gives one result per primitive.
pub open spec fn deterministic<F: Fn(usize) -> Option<Fraction>>(hit_of: &F) -> bool {
    forall|o: usize, r1: Option<Fraction>, r2: Option<Fraction>|
        #[trigger] hit_of.ensures((o,), r1) && #[trigger] hit_of.ensures((o,), r2) ==> r1 == r2
}

/// The result that the primitive test gives for primitive `o`.
pub open spec fn test_result<F: Fn(usize) -> Option<Fraction>>(hit_of: &F, o: usize) -> Option<Fraction> {
    choose|r: Option<Fraction>| hit_of.ensures((o,), r)
}

/// The order of fractions is transitive, and `<` and `<=` are each other's negation.
pub proof fn lemma_fraction_order(a: Fraction, b: Fraction, c: Fraction)
    requires
        a.bounded(),
        b.bounded(),
        c.bounded(),
    ensures
        a.le(b) && b.le(c) ==> a.le(c),
        a.le(b) && b.lt(c) ==> a.lt(c),
        a.lt(b) && b.le(c) ==> a.lt(c),
        !a.lt(b) <==> b.le(a),
{
    lemma_frac_trans(a, b, c);
}

/// `a` comes before `b`, where `None` stands for a distance of plus infinity.
pub open spec fn dist_lt(a: Option<Fraction>, b: Option<Fraction>) -> bool {
    match (a, b) {
        (Some(x), Some(y)) => x.lt(y),
        (Some(_), None) => true,
        (None, _) => false,
    }
}

/// Compares two distances, `None` standing for plus infinity.
pub fn distance_less(a: &Option<Fraction>, b: &Option<Fraction>) -> (r: bool)
    requires
        a is Some ==> a->Some_0.bounded(),
        b is Some ==> b->Some_0.bounded(),
    ensures
        r == dist_lt(*a, *b),
{
    match (a, b) {
        (Some(x), Some(y)) => x.less_than(y),
        (Some(_), None) => true,
        (None, _) => false,
    }
}

} // verus!
