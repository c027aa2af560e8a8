//! A ray: an origin and a direction, neither required to be normalized.
//! Constructed fresh per camera sample and consumed immediately by the
//! shader.

use vstd::prelude::*;
use crate::fixed::mag;
use crate::vec3::Vec3;
use crate::vec3::add3;
use crate::vec3::scale3;
use crate::vec3::in_bounds3;
use crate::vec3::VEC_LIMIT;
use crate::fixed::lemma_fxm_bound;

verus! {

/// `origin + t * direction`: the point the ray reaches at parameter `t`.
pub open spec fn point_at3(o: (int, int, int), d: (int, int, int), t: int) -> (int, int, int) {
    add3(o, scale3(t, d))
}

/// An origin plus a direction: the line `origin + t * direction`.
#[derive(Clone, Copy, PartialEq, Eq, Structural, Debug)]
pub struct Ray {
    pub origin: Vec3,
    pub direction: Vec3,
}

impl Ray {
    /// `origin + t * direction`. No constraint on the sign or size of `t`
    /// beyond what keeps the fixed-point arithmetic in range: negative,
    /// zero and large parameters all name points on the infinite line.
    pub fn point_at_parameter(&self, t: i64) -> (r: Vec3)
        requires
            mag(t as int) <= VEC_LIMIT as int,
            in_bounds3(self.direction@, VEC_LIMIT as int),
            in_bounds3(self.origin@, 8_000_000_000_000_000_000int),
        ensures
            r@ == point_at3(self.origin@, self.direction@, t as int),
    {
        proof {
            lemma_fxm_bound(t as int, self.direction@.0, VEC_LIMIT as int, VEC_LIMIT as int);
            lemma_fxm_bound(t as int, self.direction@.1, VEC_LIMIT as int, VEC_LIMIT as int);
            lemma_fxm_bound(t as int, self.direction@.2, VEC_LIMIT as int, VEC_LIMIT as int);
        }
        self.origin.add(&self.direction.scale(t))
    }
}

} // verus!
