//! The three-component vector type. A `Vec3` serves as a point, a direction
//! and a color alike; callers track the semantic role themselves. Components
//! are fixed-point scalars (see `fixed`), and the view of a vector is the
//! triple of its components as mathematical integers.

use vstd::prelude::*;
use vstd::arithmetic::mul::lemma_mul_nonnegative;
use vstd::arithmetic::mul::lemma_mul_inequality;
use vstd::arithmetic::div_mod::lemma_fundamental_div_mod;
use vstd::arithmetic::div_mod::lemma_div_is_ordered;
use vstd::arithmetic::div_mod::lemma_hoist_over_denominator;
use crate::fixed::SCALE;
use crate::fixed::mag;
use crate::fixed::fxm;
use crate::fixed::fxd;
use crate::fixed::is_sqrt;
use crate::fixed::fx_sqrt_s;
use crate::fixed::fx_mul;
use crate::fixed::fx_div;
use crate::fixed::fx_sqrt;
use crate::fixed::lemma_mag_mul;
use crate::fixed::lemma_mag_tdiv;
use crate::fixed::lemma_fxm_bound;
use crate::fixed::lemma_fxd_bound;
use crate::fixed::lemma_fxm_sq_nonneg;
use crate::fixed::lemma_sqrt_exists;

verus! {

/// Components fed to a product (`dot`, `cross`, `length`, `scale`) must stay
/// within this magnitude so that the intermediate `i64` arithmetic fits.
/// It corresponds to real coordinates up to one million.
pub const VEC_LIMIT: i64 = 1_000_000_000_000;

/// Componentwise sum.
pub open spec fn add3(a: (int, int, int), b: (int, int, int)) -> (int, int, int) {
    (a.0 + b.0, a.1 + b.1, a.2 + b.2)
}

/// Componentwise difference.
pub open spec fn sub3(a: (int, int, int), b: (int, int, int)) -> (int, int, int) {
    (a.0 - b.0, a.1 - b.1, a.2 - b.2)
}

/// Scalar times vector, componentwise.
pub open spec fn scale3(s: int, v: (int, int, int)) -> (int, int, int) {
    (fxm(s, v.0), fxm(s, v.1), fxm(s, v.2))
}

/// Vector divided by a scalar, componentwise.
pub open spec fn divc3(v: (int, int, int), s: int) -> (int, int, int) {
    (fxd(v.0, s), fxd(v.1, s), fxd(v.2, s))
}

/// Euclidean dot product.
pub open spec fn dot3(a: (int, int, int), b: (int, int, int)) -> int {
    fxm(a.0, b.0) + fxm(a.1, b.1) + fxm(a.2, b.2)
}

/// Right-handed cross product.
pub open spec fn cross3(a: (int, int, int), b: (int, int, int)) -> (int, int, int) {
    (
        fxm(a.1, b.2) - fxm(a.2, b.1),
        fxm(a.2, b.0) - fxm(a.0, b.2),
        fxm(a.0, b.1) - fxm(a.1, b.0),
    )
}

/// Squared length: the dot product of a vector with itself.
pub open spec fn len_sq3(v: (int, int, int)) -> int {
    dot3(v, v)
}

/// Length: the square root of the squared length.
pub open spec fn len3(v: (int, int, int)) -> int {
    fx_sqrt_s(len_sq3(v))
}

/// The vector divided by its length.
pub open spec fn unit3(v: (int, int, int)) -> (int, int, int) {
    divc3(v, len3(v))
}

/// Every component has magnitude at most `m`.
pub open spec fn in_bounds3(v: (int, int, int), m: int) -> bool {
    mag(v.0) <= m && mag(v.1) <= m && mag(v.2) <= m
}

/// A point, direction or color: three fixed-point components.
#[derive(Clone, Copy, PartialEq, Eq, Structural, Debug)]
pub struct Vec3 {
    pub x: i64,
    pub y: i64,
    pub z: i64,
}

impl View for Vec3 {
    type V = (int, int, int);

    open spec fn view(&self) -> (int, int, int) {
        (self.x as int, self.y as int, self.z as int)
    }
}

impl Vec3 {
    /// Componentwise sum.
    pub fn add(&self, rhs: &Vec3) -> (r: Vec3)
        requires
            mag(self@.0 + rhs@.0) <= i64::MAX as int,
            mag(self@.1 + rhs@.1) <= i64::MAX as int,
            mag(self@.2 + rhs@.2) <= i64::MAX as int,
        ensures
            r@ == add3(self@, rhs@),
    {
        Vec3 { x: self.x + rhs.x, y: self.y + rhs.y, z: self.z + rhs.z }
    }

    /// Componentwise difference.
    pub fn sub(&self, rhs: &Vec3) -> (r: Vec3)
        requires
            mag(self@.0 - rhs@.0) <= i64::MAX as int,
            mag(self@.1 - rhs@.1) <= i64::MAX as int,
            mag(self@.2 - rhs@.2) <= i64::MAX as int,
        ensures
            r@ == sub3(self@, rhs@),
    {
        Vec3 { x: self.x - rhs.x, y: self.y - rhs.y, z: self.z - rhs.z }
    }

    /// Componentwise sum, mutating the receiver.
    pub fn add_assign(&mut self, rhs: &Vec3)
        requires
            mag(old(self)@.0 + rhs@.0) <= i64::MAX as int,
            mag(old(self)@.1 + rhs@.1) <= i64::MAX as int,
            mag(old(self)@.2 + rhs@.2) <= i64::MAX as int,
        ensures
            final(self)@ == add3(old(self)@, rhs@),
    {
        self.x = self.x + rhs.x;
        self.y = self.y + rhs.y;
        self.z = self.z + rhs.z;
    }

    /// Scalar product.
    pub fn scale(&self, s: i64) -> (r: Vec3)
        requires
            s != i64::MIN,
            in_bounds3(self@, i64::MAX as int - 1),
            mag(fxm(s as int, self@.0)) <= i64::MAX as int,
            mag(fxm(s as int, self@.1)) <= i64::MAX as int,
            mag(fxm(s as int, self@.2)) <= i64::MAX as int,
        ensures
            r@ == scale3(s as int, self@),
    {
        Vec3 { x: fx_mul(s, self.x), y: fx_mul(s, self.y), z: fx_mul(s, self.z) }
    }

    /// Division by a scalar.
    pub fn divide(&self, s: i64) -> (r: Vec3)
        requires
            s != 0,
            s != i64::MIN,
            in_bounds3(self@, i64::MAX as int - 1),
            mag(fxd(self@.0, s as int)) <= i64::MAX as int,
            mag(fxd(self@.1, s as int)) <= i64::MAX as int,
            mag(fxd(self@.2, s as int)) <= i64::MAX as int,
        ensures
            r@ == divc3(self@, s as int),
    {
        Vec3 { x: fx_div(self.x, s), y: fx_div(self.y, s), z: fx_div(self.z, s) }
    }

    /// Division by a scalar, mutating the receiver.
    pub fn div_assign(&mut self, s: i64)
        requires
            s != 0,
            s != i64::MIN,
            in_bounds3(old(self)@, i64::MAX as int - 1),
            mag(fxd(old(self)@.0, s as int)) <= i64::MAX as int,
            mag(fxd(old(self)@.1, s as int)) <= i64::MAX as int,
            mag(fxd(old(self)@.2, s as int)) <= i64::MAX as int,
        ensures
            final(self)@ == divc3(old(self)@, s as int),
    {
        self.x = fx_div(self.x, s);
        self.y = fx_div(self.y, s);
        self.z = fx_div(self.z, s);
    }

    /// Euclidean dot product: three multiply-adds.
    pub fn dot(&self, other: &Vec3) -> (r: i64)
        requires
            in_bounds3(self@, VEC_LIMIT as int),
            in_bounds3(other@, VEC_LIMIT as int),
        ensures
            r == dot3(self@, other@),
            mag(r as int) <= 3_000_000_000_000_000_000int,
    {
        proof {
            lemma_fxm_bound(self@.0, other@.0, VEC_LIMIT as int, VEC_LIMIT as int);
            lemma_fxm_bound(self@.1, other@.1, VEC_LIMIT as int, VEC_LIMIT as int);
            lemma_fxm_bound(self@.2, other@.2, VEC_LIMIT as int, VEC_LIMIT as int);
        }
        fx_mul(self.x, other.x) + fx_mul(self.y, other.y) + fx_mul(self.z, other.z)
    }

    /// Right-handed cross product.
    pub fn cross(&self, other: &Vec3) -> (r: Vec3)
        requires
            in_bounds3(self@, VEC_LIMIT as int),
            in_bounds3(other@, VEC_LIMIT as int),
        ensures
            r@ == cross3(self@, other@),
    {
        proof {
            lemma_fxm_bound(self@.0, other@.0, VEC_LIMIT as int, VEC_LIMIT as int);
            lemma_fxm_bound(self@.0, other@.1, VEC_LIMIT as int, VEC_LIMIT as int);
            lemma_fxm_bound(self@.0, other@.2, VEC_LIMIT as int, VEC_LIMIT as int);
            lemma_fxm_bound(self@.1, other@.0, VEC_LIMIT as int, VEC_LIMIT as int);
            lemma_fxm_bound(self@.1, other@.2, VEC_LIMIT as int, VEC_LIMIT as int);
            lemma_fxm_bound(self@.2, other@.0, VEC_LIMIT as int, VEC_LIMIT as int);
            lemma_fxm_bound(self@.2, other@.1, VEC_LIMIT as int, VEC_LIMIT as int);
        }
        Vec3 {
            x: fx_mul(self.y, other.z) - fx_mul(self.z, other.y),
            y: fx_mul(self.z, other.x) - fx_mul(self.x, other.z),
            z: fx_mul(self.x, other.y) - fx_mul(self.y, other.x),
        }
    }

    /// The dot product of the vector with itself.
    pub fn length_squared(&self) -> (r: i64)
        requires
            in_bounds3(self@, VEC_LIMIT as int),
        ensures
            r == len_sq3(self@),
            0 <= r,
    {
        proof {
            lemma_fxm_sq_nonneg(self@.0);
            lemma_fxm_sq_nonneg(self@.1);
            lemma_fxm_sq_nonneg(self@.2);
        }
        self.dot(self)
    }

    /// The square root of the squared length. Nonnegative; zero only when
    /// every component is below the representation's granularity.
    pub fn length(&self) -> (r: i64)
        requires
            in_bounds3(self@, VEC_LIMIT as int),
        ensures
            r == len3(self@),
            0 <= r,
    {
        let sq: i64 = self.length_squared();
        fx_sqrt(sq)
    }

    /// The vector divided by its length: a new vector. The zero-length case
    /// is excluded, since division by zero has no defined result here.
    pub fn normalized(&self) -> (r: Vec3)
        requires
            in_bounds3(self@, VEC_LIMIT as int),
            len3(self@) > 0,
        ensures
            r@ == unit3(self@),
    {
        let l: i64 = self.length();
        proof {
            lemma_fxd_bound(self@.0, l as int, VEC_LIMIT as int);
            lemma_fxd_bound(self@.1, l as int, VEC_LIMIT as int);
            lemma_fxd_bound(self@.2, l as int, VEC_LIMIT as int);
        }
        Vec3 { x: fx_div(self.x, l), y: fx_div(self.y, l), z: fx_div(self.z, l) }
    }

    /// The same computation as `normalized`, mutating the receiver.
    pub fn normalize(&mut self)
        requires
            in_bounds3(old(self)@, VEC_LIMIT as int),
            len3(old(self)@) > 0,
        ensures
            final(self)@ == unit3(old(self)@),
    {
        let l: i64 = self.length();
        proof {
            lemma_fxd_bound(old(self)@.0, l as int, VEC_LIMIT as int);
            lemma_fxd_bound(old(self)@.1, l as int, VEC_LIMIT as int);
            lemma_fxd_bound(old(self)@.2, l as int, VEC_LIMIT as int);
        }
        self.x = fx_div(self.x, l);
        self.y = fx_div(self.y, l);
        self.z = fx_div(self.z, l);
    }
}

/// A squared length is nonnegative.
pub proof fn lemma_len_sq_nonneg(v: (int, int, int))
    ensures
        0 <= len_sq3(v),
{
    lemma_fxm_sq_nonneg(v.0);
    lemma_fxm_sq_nonneg(v.1);
    lemma_fxm_sq_nonneg(v.2);
}

/// The length is the integer square root of `len_sq3(v) * SCALE`.
pub proof fn lemma_len_props(v: (int, int, int))
    ensures
        0 <= len3(v),
        is_sqrt(len_sq3(v) * (SCALE as int), len3(v)),
{
    lemma_len_sq_nonneg(v);
    lemma_mul_nonnegative(len_sq3(v), SCALE as int);
    lemma_sqrt_exists(len_sq3(v) * (SCALE as int));
}

/// A vector of positive length has a squared length of at least one raw unit.
pub proof fn lemma_len_pos_sq_pos(v: (int, int, int))
    requires
        len3(v) > 0,
    ensures
        len_sq3(v) >= 1,
{
    lemma_len_props(v);
    let l = len3(v);
    assert(l * l >= 1) by (nonlinear_arith)
        requires
            l >= 1,
    ;
    if len_sq3(v) < 1 {
        assert(len_sq3(v) * (SCALE as int) <= 0) by (nonlinear_arith)
            requires
                len_sq3(v) <= 0,
                SCALE as int > 0,
        ;
    }
}

/// Any vector whose squared length is at least one raw unit has a length of
/// at least a thousand raw units (the square root of `SCALE`).
pub proof fn lemma_len_lower(v: (int, int, int))
    requires
        len_sq3(v) >= 1,
    ensures
        len3(v) >= 1000,
{
    lemma_len_props(v);
    let l = len3(v);
    assert(len_sq3(v) * (SCALE as int) >= SCALE as int) by (nonlinear_arith)
        requires
            len_sq3(v) >= 1,
            SCALE as int > 0,
    ;
    if l < 1000 {
        assert((l + 1) * (l + 1) <= 1_000_000) by (nonlinear_arith)
            requires
                0 <= l,
                l + 1 <= 1000,
        ;
    }
}

/// Quantization bound for one component of a normalized vector: when the
/// squared length is at least one (in real terms), dividing a component by
/// the rounded length can overshoot a unit component by at most one raw unit.
pub proof fn lemma_unit_comp_bound(c: int, lsq: int, l: int)
    requires
        fxm(c, c) <= lsq,
        0 <= fxm(c, c),
        lsq >= SCALE as int,
        is_sqrt(lsq * (SCALE as int), l),
    ensures
        mag(fxd(c, l)) <= SCALE as int + 1,
        l >= SCALE as int,
        mag(c) <= l + 1,
{
    let s = SCALE as int;
    let y = mag(c);
    // l >= SCALE: (l+1)^2 > lsq * s >= s * s.
    assert(lsq * s >= s * s) by (nonlinear_arith)
        requires
            lsq >= s,
            s > 0,
    ;
    assert(l + 1 > s) by (nonlinear_arith)
        requires
            (l + 1) * (l + 1) > s * s,
            l + 1 > 0,
            s > 0,
    ;
    // fxm(c, c) * s >= y * y - s + 1.
    lemma_mag_mul(c, c);
    lemma_mag_tdiv(c * c, s);
    lemma_fundamental_div_mod(y * y, s);
    assert(fxm(c, c) * s > y * y - s);
    // y <= l + 1, else y * y >= (l+2)^2 > (l+1)^2 + s > lsq * s + s.
    assert(fxm(c, c) * s <= lsq * s) by (nonlinear_arith)
        requires
            fxm(c, c) <= lsq,
            s > 0,
    ;
    assert(y * y < (l + 1) * (l + 1) + s);
    if y >= l + 2 {
        assert(y * y >= (l + 2) * (l + 2)) by (nonlinear_arith)
            requires
                y >= l + 2,
                l + 2 > 0,
        ;
        assert((l + 2) * (l + 2) >= (l + 1) * (l + 1) + s) by (nonlinear_arith)
            requires
                l + 1 >= s,
                s > 0,
        ;
    }
    // mag(fxd(c, l)) == y * s / l <= (l + 1) * s / l == s + s / l <= s + 1.
    lemma_mag_mul(c, s);
    lemma_mag_tdiv(c * s, l);
    lemma_mul_inequality(y, l + 1, s);
    lemma_div_is_ordered(y * s, (l + 1) * s, l);
    assert((l + 1) * s == s + s * l) by (nonlinear_arith);
    lemma_hoist_over_denominator(s, s, l as nat);
    lemma_div_is_ordered(s, l, l);
    vstd::arithmetic::div_mod::lemma_div_by_self(l);
}

} // verus!
