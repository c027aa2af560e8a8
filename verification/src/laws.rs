//! The algebraic laws of the library, stated and proved over the same spec
//! functions that the executable contracts use. Exact integer laws (dot
//! symmetry, associativity, ray evaluation, averaging) hold with no
//! tolerance; laws touched by truncation (distributivity, unit-vector
//! bounds) carry an explicit one-raw-unit tolerance.

use vstd::prelude::*;
use vstd::arithmetic::mul::lemma_mul_is_commutative;
use vstd::arithmetic::mul::lemma_mul_inequality;
use vstd::arithmetic::div_mod::lemma_div_is_ordered;
use vstd::arithmetic::div_mod::lemma_div_multiples_vanish;
use vstd::arithmetic::div_mod::lemma_fundamental_div_mod;
use vstd::arithmetic::div_mod::lemma_mod_division_less_than_divisor;
use vstd::arithmetic::div_mod::lemma_hoist_over_denominator;
use crate::fixed::SCALE;
use crate::fixed::mag;
use crate::fixed::tdiv;
use crate::fixed::fxm;
use crate::fixed::fxd;
use crate::fixed::is_sqrt;
use crate::fixed::fx_sqrt_s;
use crate::fixed::lemma_mag_mul;
use crate::fixed::lemma_mag_tdiv;
use crate::fixed::lemma_fxm_bound;
use crate::fixed::lemma_fxm_sq_nonneg;
use crate::fixed::lemma_sqrt_unique;
use crate::vec3::add3;
use crate::vec3::sub3;
use crate::vec3::scale3;
use crate::vec3::dot3;
use crate::vec3::len_sq3;
use crate::vec3::len3;
use crate::vec3::unit3;
use crate::vec3::in_bounds3;
use crate::vec3::lemma_len_props;
use crate::vec3::lemma_unit_comp_bound;
use crate::ray::point_at3;
use crate::render::RenderConfig;
use crate::render::HALF_ONE;
use crate::render::BYTE_GAIN;
use crate::render::hit_sphere_s;
use crate::render::background3;
use crate::render::byte_s;
use crate::render::pixel_s;
use crate::render::sample_color3;
use crate::render::lemma_avg_exact;

verus! {

/// The dot product is symmetric: `dot(a, b) == dot(b, a)`.
pub proof fn lemma_dot_commutes(a: (int, int, int), b: (int, int, int))
    ensures
        dot3(a, b) == dot3(b, a),
{
    lemma_mul_is_commutative(a.0, b.0);
    lemma_mul_is_commutative(a.1, b.1);
    lemma_mul_is_commutative(a.2, b.2);
}

/// The length of a vector is the square root of its dot product with
/// itself.
pub proof fn lemma_length_is_sqrt_dot(v: (int, int, int))
    ensures
        len3(v) == fx_sqrt_s(dot3(v, v)),
{
}

/// Vector addition is associative, exactly: `(a + b) + c == a + (b + c)`.
pub proof fn lemma_add_associative(a: (int, int, int), b: (int, int, int), c: (int, int, int))
    ensures
        add3(add3(a, b), c) == add3(a, add3(b, c)),
{
}

/// The truncation left over after dividing by `SCALE`: within one unit of
/// the exact quotient, on the zero side.
proof fn lemma_tdiv_scale_rem(x: int)
    ensures
        x >= 0 ==> 0 <= x - (SCALE as int) * tdiv(x, SCALE as int) < SCALE as int,
        x < 0 ==> -(SCALE as int) < x - (SCALE as int) * tdiv(x, SCALE as int) <= 0,
{
    let s = SCALE as int;
    lemma_mag_tdiv(x, s);
    lemma_fundamental_div_mod(mag(x), s);
    lemma_mod_division_less_than_divisor(mag(x), s);
    assert(mag(x) == s * (mag(x) / s) + mag(x) % s);
    if x >= 0 {
        assert(x - s * tdiv(x, s) == mag(x) % s) by (nonlinear_arith)
            requires
                x == mag(x),
                tdiv(x, s) == mag(x) / s,
                mag(x) == s * (mag(x) / s) + mag(x) % s,
        ;
    } else {
        assert(x - s * tdiv(x, s) == -(mag(x) % s)) by (nonlinear_arith)
            requires
                x == -mag(x),
                tdiv(x, s) == -(mag(x) / s),
                mag(x) == s * (mag(x) / s) + mag(x) % s,
        ;
    }
}

/// Truncation makes the sum of two scaled products differ from the scaled
/// product of the sum by at most one raw unit.
proof fn lemma_tdiv_add_err(p: int, q: int)
    ensures
        mag(tdiv(p + q, SCALE as int) - tdiv(p, SCALE as int) - tdiv(q, SCALE as int)) <= 1,
{
    let s = SCALE as int;
    lemma_tdiv_scale_rem(p);
    lemma_tdiv_scale_rem(q);
    lemma_tdiv_scale_rem(p + q);
    let d = tdiv(p + q, s) - tdiv(p, s) - tdiv(q, s);
    assert(s * d == (p + q - s * tdiv(p + q, s)) * -1 + (p - s * tdiv(p, s)) + (q - s * tdiv(
    q, s))) by (nonlinear_arith)
        requires
            d == tdiv(p + q, s) - tdiv(p, s) - tdiv(q, s),
    ;
    assert(-2 * s < s * d < 2 * s);
    assert(-2 < d < 2) by (nonlinear_arith)
        requires
            -2 * s < s * d < 2 * s,
            s == 1_000_000,
    ;
}

/// Scalar multiplication distributes over vector addition within one raw
/// unit per component: `s * (a + b)` and `s * a + s * b` agree to that
/// tolerance (the analogue of the floating-point law).
pub proof fn lemma_scale_distributes(s: int, a: (int, int, int), b: (int, int, int))
    ensures
        mag(scale3(s, add3(a, b)).0 - (scale3(s, a).0 + scale3(s, b).0)) <= 1,
        mag(scale3(s, add3(a, b)).1 - (scale3(s, a).1 + scale3(s, b).1)) <= 1,
        mag(scale3(s, add3(a, b)).2 - (scale3(s, a).2 + scale3(s, b).2)) <= 1,
{
    assert(s * (a.0 + b.0) == s * a.0 + s * b.0) by (nonlinear_arith);
    assert(s * (a.1 + b.1) == s * a.1 + s * b.1) by (nonlinear_arith);
    assert(s * (a.2 + b.2) == s * a.2 + s * b.2) by (nonlinear_arith);
    lemma_tdiv_add_err(s * a.0, s * b.0);
    lemma_tdiv_add_err(s * a.1, s * b.1);
    lemma_tdiv_add_err(s * a.2, s * b.2);
}

/// Every component of a normalized vector lies within one raw unit of the
/// unit interval, provided the vector's squared length is at least one;
/// the part of "normalized vectors have length one" that truncation
/// leaves exact.
pub proof fn lemma_normalized_components_bounded(v: (int, int, int))
    requires
        len_sq3(v) >= SCALE as int,
    ensures
        in_bounds3(unit3(v), SCALE as int + 1),
{
    lemma_len_props(v);
    lemma_fxm_sq_nonneg(v.0);
    lemma_fxm_sq_nonneg(v.1);
    lemma_fxm_sq_nonneg(v.2);
    lemma_unit_comp_bound(v.0, len_sq3(v), len3(v));
    lemma_unit_comp_bound(v.1, len_sq3(v), len3(v));
    lemma_unit_comp_bound(v.2, len_sq3(v), len3(v));
}

/// One truncated-division step of the normalization, expanded as a square:
/// with `u` the quotient of `y * SCALE` by `l` and `e` the remainder,
/// `(l u)^2` is the exact square of `y * SCALE - e`.
proof fn lemma_comp_expand(y: int, l: int, u: int, e: int)
    requires
        y >= 0,
        l >= 1,
        u == (y * (SCALE as int)) / l,
        e == y * (SCALE as int) - l * u,
    ensures
        0 <= e < l,
        (l * u) * (l * u) == (y * (SCALE as int)) * (y * (SCALE as int)) - 2 * (y * (
        SCALE as int)) * e + e * e,
{
    let s = SCALE as int;
    lemma_fundamental_div_mod(y * s, l);
    lemma_mod_division_less_than_divisor(y * s, l);
    assert(l * u == y * s - e);
    assert((y * s - e) * (y * s - e) == (y * s) * (y * s) - 2 * (y * s) * e + e * e)
        by (nonlinear_arith);
}

/// A normalized vector has length one, within six raw units (six
/// millionths), whenever the vector's squared length is at least one.
/// Shorter vectors fall below the representation's granularity and
/// normalize inaccurately, so they are excluded.
pub proof fn lemma_normalized_length(v: (int, int, int))
    requires
        len_sq3(v) >= SCALE as int,
    ensures
        mag(len3(unit3(v)) - SCALE as int) <= 6,
{
    let s = SCALE as int;
    let lsq = len_sq3(v);
    let l = len3(v);
    lemma_len_props(v);
    lemma_fxm_sq_nonneg(v.0);
    lemma_fxm_sq_nonneg(v.1);
    lemma_fxm_sq_nonneg(v.2);
    lemma_unit_comp_bound(v.0, lsq, l);
    lemma_unit_comp_bound(v.1, lsq, l);
    lemma_unit_comp_bound(v.2, lsq, l);
    // magnitudes of the components and of the unit components
    let y0 = mag(v.0);
    let y1 = mag(v.1);
    let y2 = mag(v.2);
    lemma_mag_mul(v.0, s);
    lemma_mag_mul(v.1, s);
    lemma_mag_mul(v.2, s);
    lemma_mag_tdiv(v.0 * s, l);
    lemma_mag_tdiv(v.1 * s, l);
    lemma_mag_tdiv(v.2 * s, l);
    let u0 = mag(fxd(v.0, l));
    let u1 = mag(fxd(v.1, l));
    let u2 = mag(fxd(v.2, l));
    assert(u0 == (y0 * s) / l);
    assert(u1 == (y1 * s) / l);
    assert(u2 == (y2 * s) / l);
    let e0 = y0 * s - l * u0;
    let e1 = y1 * s - l * u1;
    let e2 = y2 * s - l * u2;
    lemma_comp_expand(y0, l, u0, e0);
    lemma_comp_expand(y1, l, u1, e1);
    lemma_comp_expand(y2, l, u2, e2);
    // the squared components, split against the scale
    lemma_mag_mul(v.0, v.0);
    lemma_mag_mul(v.1, v.1);
    lemma_mag_mul(v.2, v.2);
    lemma_mag_tdiv(v.0 * v.0, s);
    lemma_mag_tdiv(v.1 * v.1, s);
    lemma_mag_tdiv(v.2 * v.2, s);
    lemma_fundamental_div_mod(y0 * y0, s);
    lemma_fundamental_div_mod(y1 * y1, s);
    lemma_fundamental_div_mod(y2 * y2, s);
    lemma_mod_division_less_than_divisor(y0 * y0, s);
    lemma_mod_division_less_than_divisor(y1 * y1, s);
    lemma_mod_division_less_than_divisor(y2 * y2, s);
    let r0 = (y0 * y0) % s;
    let r1 = (y1 * y1) % s;
    let r2 = (y2 * y2) % s;
    assert(fxm(v.0, v.0) == (y0 * y0) / s && y0 * y0 == s * fxm(v.0, v.0) + r0);
    assert(fxm(v.1, v.1) == (y1 * y1) / s && y1 * y1 == s * fxm(v.1, v.1) + r1);
    assert(fxm(v.2, v.2) == (y2 * y2) / s && y2 * y2 == s * fxm(v.2, v.2) + r2);
    // the rounding of the length itself
    let dlt = lsq * s - l * l;
    assert((l + 1) * (l + 1) == l * l + 2 * l + 1) by (nonlinear_arith);
    assert(0 <= dlt <= 2 * l);
    // assemble: l^2 * (u0^2 + u1^2 + u2^2) as an exact polynomial
    let a = u0 * u0 + u1 * u1 + u2 * u2;
    assert(l * l * (u0 * u0) == (l * u0) * (l * u0)) by (nonlinear_arith);
    assert(l * l * (u1 * u1) == (l * u1) * (l * u1)) by (nonlinear_arith);
    assert(l * l * (u2 * u2) == (l * u2) * (l * u2)) by (nonlinear_arith);
    assert(l * l * a == l * l * (u0 * u0) + l * l * (u1 * u1) + l * l * (u2 * u2))
        by (nonlinear_arith)
        requires
            a == u0 * u0 + u1 * u1 + u2 * u2,
    ;
    let sqs = (y0 * s) * (y0 * s) + (y1 * s) * (y1 * s) + (y2 * s) * (y2 * s);
    let ee = e0 * e0 + e1 * e1 + e2 * e2;
    let ye = (y0 * s) * e0 + (y1 * s) * e1 + (y2 * s) * e2;
    assert(l * l * a == sqs - 2 * ye + ee) by (nonlinear_arith)
        requires
            l * l * a == (l * u0) * (l * u0) + (l * u1) * (l * u1) + (l * u2) * (l * u2),
            (l * u0) * (l * u0) == (y0 * s) * (y0 * s) - 2 * (y0 * s) * e0 + e0 * e0,
            (l * u1) * (l * u1) == (y1 * s) * (y1 * s) - 2 * (y1 * s) * e1 + e1 * e1,
            (l * u2) * (l * u2) == (y2 * s) * (y2 * s) - 2 * (y2 * s) * e2 + e2 * e2,
            sqs == (y0 * s) * (y0 * s) + (y1 * s) * (y1 * s) + (y2 * s) * (y2 * s),
            ye == (y0 * s) * e0 + (y1 * s) * e1 + (y2 * s) * e2,
            ee == e0 * e0 + e1 * e1 + e2 * e2,
    ;
    // sqs == s^2 * (y0^2 + y1^2 + y2^2) == s^2 * (s * lsq + r) with the
    // remainders r
    let rr = r0 + r1 + r2;
    assert((y0 * s) * (y0 * s) == (s * s) * (y0 * y0)) by (nonlinear_arith);
    assert((y1 * s) * (y1 * s) == (s * s) * (y1 * y1)) by (nonlinear_arith);
    assert((y2 * s) * (y2 * s) == (s * s) * (y2 * y2)) by (nonlinear_arith);
    assert(y0 * y0 + y1 * y1 + y2 * y2 == s * lsq + rr);
    assert(sqs == (s * s) * (s * lsq + rr)) by (nonlinear_arith)
        requires
            sqs == (s * s) * (y0 * y0) + (s * s) * (y1 * y1) + (s * s) * (y2 * y2),
            y0 * y0 + y1 * y1 + y2 * y2 == s * lsq + rr,
    ;
    assert((s * s) * (s * lsq + rr) == (s * s) * (l * l) + (s * s) * dlt + (s * s) * rr)
        by (nonlinear_arith)
        requires
            dlt == lsq * s - l * l,
    ;
    // bound every deviation term against l^2, using s <= l
    assert(s <= l);
    assert((s * s) * dlt <= 2 * s * (l * l)) by (nonlinear_arith)
        requires
            0 <= dlt <= 2 * l,
            0 <= s <= l,
    ;
    assert((s * s) * rr <= 3 * s * (l * l)) by (nonlinear_arith)
        requires
            0 <= rr < 3 * s,
            0 <= s <= l,
    ;
    assert(0 <= ye) by (nonlinear_arith)
        requires
            0 <= y0 && 0 <= y1 && 0 <= y2 && 0 <= e0 && 0 <= e1 && 0 <= e2 && 0 <= s,
            ye == (y0 * s) * e0 + (y1 * s) * e1 + (y2 * s) * e2,
    ;
    assert(2 * ye <= (6 * s + 6) * (l * l)) by (nonlinear_arith)
        requires
            ye == (y0 * s) * e0 + (y1 * s) * e1 + (y2 * s) * e2,
            0 <= y0 <= l + 1 && 0 <= y1 <= l + 1 && 0 <= y2 <= l + 1,
            0 <= e0 < l && 0 <= e1 < l && 0 <= e2 < l,
            0 < s <= l,
    ;
    assert(0 <= ee <= 3 * (l * l)) by (nonlinear_arith)
        requires
            ee == e0 * e0 + e1 * e1 + e2 * e2,
            0 <= e0 < l && 0 <= e1 < l && 0 <= e2 < l,
            l >= 1,
    ;
    // so a is within a few scales of s^2
    assert(l * l * a <= ((s * s) + 5 * s + 3) * (l * l)) by (nonlinear_arith)
        requires
            l * l * a == (s * s) * (l * l) + (s * s) * dlt + (s * s) * rr - 2 * ye + ee,
            (s * s) * dlt <= 2 * s * (l * l),
            (s * s) * rr <= 3 * s * (l * l),
            0 <= ye,
            0 <= ee <= 3 * (l * l),
            0 <= (s * s) * dlt,
            0 <= (s * s) * rr,
    ;
    assert(l * l * a >= ((s * s) - 6 * s - 6) * (l * l)) by (nonlinear_arith)
        requires
            l * l * a == (s * s) * (l * l) + (s * s) * dlt + (s * s) * rr - 2 * ye + ee,
            2 * ye <= (6 * s + 6) * (l * l),
            0 <= ee,
            0 <= (s * s) * dlt,
            0 <= (s * s) * rr,
    ;
    assert(a <= (s * s) + 5 * s + 3) by (nonlinear_arith)
        requires
            l * l * a <= ((s * s) + 5 * s + 3) * (l * l),
            l >= 1,
    ;
    assert(a >= (s * s) - 6 * s - 6) by (nonlinear_arith)
        requires
            l * l * a >= ((s * s) - 6 * s - 6) * (l * l),
            l >= 1,
    ;
    // the squared length of the unit vector, against the scale
    let w = unit3(v);
    lemma_mag_mul(w.0, w.0);
    lemma_mag_mul(w.1, w.1);
    lemma_mag_mul(w.2, w.2);
    lemma_mag_tdiv(w.0 * w.0, s);
    lemma_mag_tdiv(w.1 * w.1, s);
    lemma_mag_tdiv(w.2 * w.2, s);
    lemma_fundamental_div_mod(u0 * u0, s);
    lemma_fundamental_div_mod(u1 * u1, s);
    lemma_fundamental_div_mod(u2 * u2, s);
    lemma_mod_division_less_than_divisor(u0 * u0, s);
    lemma_mod_division_less_than_divisor(u1 * u1, s);
    lemma_mod_division_less_than_divisor(u2 * u2, s);
    let lsq_u = len_sq3(w);
    assert(fxm(w.0, w.0) == (u0 * u0) / s);
    assert(fxm(w.1, w.1) == (u1 * u1) / s);
    assert(fxm(w.2, w.2) == (u2 * u2) / s);
    assert(s * lsq_u <= a);
    assert(a < s * lsq_u + 3 * s);
    assert(s * (s + 6) > (s * s) + 5 * s + 3);
    assert(lsq_u <= s + 5) by (nonlinear_arith)
        requires
            s * lsq_u <= (s * s) + 5 * s + 3,
            s == 1_000_000,
    ;
    assert(lsq_u >= s - 10) by (nonlinear_arith)
        requires
            s * lsq_u > (s * s) - 6 * s - 6 - 3 * s,
            s == 1_000_000,
    ;
    // finally the rounded square root of that squared length
    lemma_len_props(w);
    let lu = len3(w);
    assert(lu * lu <= lsq_u * s < (lu + 1) * (lu + 1));
    assert(lu <= s + 2) by (nonlinear_arith)
        requires
            lu * lu <= lsq_u * s,
            lsq_u <= s + 5,
            lu >= 0,
            s == 1_000_000,
    ;
    assert(lu >= s - 6) by (nonlinear_arith)
        requires
            lsq_u * s < (lu + 1) * (lu + 1),
            lsq_u >= s - 10,
            lu >= 0,
            s == 1_000_000,
    ;
}

/// A ray evaluated at parameter zero is its origin.
pub proof fn lemma_point_at_zero(o: (int, int, int), d: (int, int, int))
    ensures
        point_at3(o, d, 0) == o,
{
    assert(0 * d.0 == 0) by (nonlinear_arith);
    assert(0 * d.1 == 0) by (nonlinear_arith);
    assert(0 * d.2 == 0) by (nonlinear_arith);
    assert(tdiv(0, SCALE as int) == 0);
}

/// Ray evaluation is affine in the parameter: the displacement from the
/// origin is exactly the scaled direction.
pub proof fn lemma_point_at_affine(o: (int, int, int), d: (int, int, int), t: int)
    ensures
        sub3(point_at3(o, d, t), o) == scale3(t, d),
{
}

/// A negative discriminant (no real root) yields the miss sentinel, the
/// fixed-point rendering of -1.0.
pub proof fn lemma_miss_is_sentinel(
    center: (int, int, int),
    radius: int,
    origin: (int, int, int),
    dir: (int, int, int),
)
    requires
        ({
            let oc = sub3(origin, center);
            let a = dot3(dir, dir);
            let b = 2 * dot3(oc, dir);
            let c = dot3(oc, oc) - fxm(radius, radius);
            fxm(b, b) - fxm(4 * a, c) < 0
        }),
    ensures
        hit_sphere_s(center, radius, origin, dir) == -(SCALE as int),
{
}

/// A discriminant of exactly zero (a tangent ray) yields the single
/// repeated root `-b / (2 a)`.
pub proof fn lemma_tangent_repeated_root(
    center: (int, int, int),
    radius: int,
    origin: (int, int, int),
    dir: (int, int, int),
)
    requires
        dot3(dir, dir) != 0,
        ({
            let oc = sub3(origin, center);
            let a = dot3(dir, dir);
            let b = 2 * dot3(oc, dir);
            let c = dot3(oc, oc) - fxm(radius, radius);
            fxm(b, b) - fxm(4 * a, c) == 0
        }),
    ensures
        hit_sphere_s(center, radius, origin, dir) == fxd(
            -(2 * dot3(sub3(origin, center), dir)),
            2 * dot3(dir, dir),
        ),
{
    assert(is_sqrt(0, 0));
    lemma_sqrt_unique(0, 0);
    assert(0 * (SCALE as int) == 0) by (nonlinear_arith);
}

/// The shader is a pure function of the ray: two results that both meet
/// `color`'s contract for the same ray are identical.
pub proof fn lemma_color_pure(
    r1: crate::vec3::Vec3,
    r2: crate::vec3::Vec3,
    ray: crate::ray::Ray,
)
    requires
        r1@ == crate::render::color_s(ray.origin@, ray.direction@),
        r2@ == crate::render::color_s(ray.origin@, ray.direction@),
    ensures
        r1 == r2,
{
}

/// A nonnegative factor at most one leaves a nonnegative fixed-point
/// product no larger than the other factor.
proof fn lemma_fxm_le(a: int, b: int)
    requires
        0 <= a,
        0 <= b <= SCALE as int,
    ensures
        0 <= fxm(a, b) <= a,
{
    let s = SCALE as int;
    lemma_mag_mul(a, b);
    lemma_mag_tdiv(a * b, s);
    lemma_mul_inequality(b, s, a);
    assert(b * a == a * b) by (nonlinear_arith);
    assert(s * a == a * s) by (nonlinear_arith);
    lemma_div_is_ordered(a * b, a * s, s);
    lemma_div_multiples_vanish(a, s);
}

/// Multiplying by one (the scale itself) is exact.
proof fn lemma_fxm_one(x: int)
    ensures
        fxm(x, SCALE as int) == x,
{
    let s = SCALE as int;
    lemma_mag_mul(x, s);
    lemma_mag_tdiv(x * s, s);
    assert(mag(x) * s == s * mag(x)) by (nonlinear_arith);
    lemma_div_multiples_vanish(mag(x), s);
}

/// For a ray that misses the sphere, the background color's blend factor
/// lies in `[0, 1]` and every channel lies in `[0, 1]`; the blue channel is
/// exactly one. Excludes directions shorter than one unit, whose
/// normalization the representation cannot keep accurate.
pub proof fn lemma_background_in_range(d: (int, int, int))
    requires
        dot3(d, d) >= SCALE as int,
    ensures
        0 <= background3(d).0 <= SCALE as int,
        0 <= background3(d).1 <= SCALE as int,
        background3(d).2 == SCALE as int,
{
    let s = SCALE as int;
    lemma_normalized_components_bounded(d);
    let uy = unit3(d).1;
    let w = uy + s;
    let t = fxm(HALF_ONE as int, w);
    // 0 <= t <= SCALE.
    lemma_mag_mul(HALF_ONE as int, w);
    lemma_mag_tdiv((HALF_ONE as int) * w, s);
    lemma_fxm_bound(HALF_ONE as int, w, 500_000int, 2_000_001int);
    if w >= 0 {
        assert(t >= 0);
    } else {
        assert(mag(w) <= 1);
        assert(mag((HALF_ONE as int) * w) <= 500_000);
        vstd::arithmetic::div_mod::lemma_basic_div(mag((HALF_ONE as int) * w), s);
        assert(t == 0);
    }
    // Each channel: fxm(s - t, chan) + fxm(t, chan2) with channels in [0, s].
    lemma_fxm_le(s - t, s);
    lemma_fxm_le(t, s);
    lemma_fxm_le(t, 500_000int);
    lemma_fxm_le(t, 700_000int);
    lemma_fxm_one(s - t);
    lemma_fxm_one(t);
}

/// After the scale-and-truncate output step, a channel in `[0, 1]` becomes
/// an integer in `[0, 255]`.
pub proof fn lemma_byte_in_range(c: int)
    requires
        0 <= c <= SCALE as int,
    ensures
        0 <= byte_s(c) <= 255,
{
    let s = SCALE as int;
    let g = BYTE_GAIN as int;
    lemma_mag_mul(g, c);
    lemma_mag_tdiv(g * c, s);
    lemma_mul_inequality(c, s, g);
    assert(c * g == g * c) by (nonlinear_arith);
    assert(s * g == g * s) by (nonlinear_arith);
    lemma_div_is_ordered(g * c, g * s, s);
    lemma_div_multiples_vanish(g, s);
    // fxm(g, c) <= g == 255_990_000; then dividing by the scale truncates
    // to at most 255.
    lemma_mag_tdiv(fxm(g, c), s);
    lemma_div_is_ordered(fxm(g, c), 255_990_000int, s);
}

/// For any ray that misses the sphere (and whose direction is at least a
/// unit long), the shader takes the background branch and every output RGB
/// channel, after the scale-and-truncate step, lies in `[0, 255]`.
pub proof fn lemma_miss_shading_bytes_in_range(o: (int, int, int), d: (int, int, int))
    requires
        dot3(d, d) >= SCALE as int,
        crate::render::hit_sphere_s(
            crate::render::sphere_center3(),
            crate::render::SPHERE_RADIUS as int,
            o,
            d,
        ) <= 0,
    ensures
        0 <= byte_s(crate::render::color_s(o, d).0) <= 255,
        0 <= byte_s(crate::render::color_s(o, d).1) <= 255,
        byte_s(crate::render::color_s(o, d).2) == 255,
{
    lemma_background_in_range(d);
    lemma_byte_in_range(background3(d).0);
    lemma_byte_in_range(background3(d).1);
    lemma_byte_in_range(background3(d).2);
    // a full channel is exactly 255: 255.99 truncates to 255
    lemma_fxm_one(BYTE_GAIN as int);
}

/// The blend is monotone: a larger unit vertical component gives a smaller
/// (bluer) red and green channel, and leaves blue unchanged. Stated over
/// the background of two directions that both miss the sphere.
pub proof fn lemma_background_monotone(d1: (int, int, int), d2: (int, int, int))
    requires
        dot3(d1, d1) >= SCALE as int,
        dot3(d2, d2) >= SCALE as int,
        unit3(d1).1 <= unit3(d2).1,
    ensures
        background3(d2).0 <= background3(d1).0,
        background3(d2).1 <= background3(d1).1,
        background3(d2).2 == background3(d1).2,
{
    let s = SCALE as int;
    let h = HALF_ONE as int;
    let t1 = fxm(h, unit3(d1).1 + s);
    let t2 = fxm(h, unit3(d2).1 + s);
    crate::fixed::lemma_fxm_mono(h, unit3(d1).1 + s, unit3(d2).1 + s);
    lemma_background_in_range(d1);
    lemma_background_in_range(d2);
    lemma_fxm_one(s - t1);
    lemma_fxm_one(s - t2);
    lemma_fxm_one(t1);
    lemma_fxm_one(t2);
    // red: (s - t) + t/2; green: (s - t) + 7t/10. Both nonincreasing in t.
    lemma_scaled_channel_monotone(t1, t2, 500_000int);
    lemma_scaled_channel_monotone(t1, t2, 700_000int);
}

/// For `0 <= t1 <= t2` and a channel value `v <= SCALE`, the channel
/// `(s - t) + fxm(t, v)` is nonincreasing in `t`.
proof fn lemma_scaled_channel_monotone(t1: int, t2: int, v: int)
    requires
        0 <= t1 <= t2,
        0 <= v <= SCALE as int,
    ensures
        (SCALE as int - t2) + fxm(t2, v) <= (SCALE as int - t1) + fxm(t1, v),
{
    let s = SCALE as int;
    let dlt = t2 - t1;
    // fxm(t2, v) <= fxm(t1, v) + dlt: t2 * v <= t1 * v + dlt * s.
    assert(t2 * v == t1 * v + dlt * v) by (nonlinear_arith)
        requires
            dlt == t2 - t1,
    ;
    lemma_mul_inequality(v, s, dlt);
    assert(dlt * v == v * dlt) by (nonlinear_arith);
    assert(dlt * s == s * dlt) by (nonlinear_arith);
    lemma_mag_mul(t2, v);
    lemma_mag_mul(t1, v);
    lemma_mag_tdiv(t2 * v, s);
    lemma_mag_tdiv(t1 * v, s);
    lemma_div_is_ordered(t2 * v, t1 * v + dlt * s, s);
    lemma_hoist_over_denominator(t1 * v, dlt, s as nat);
}

/// Changing the sample count alone changes no pixel, when the jitter is
/// held fixed: each sample repeats, and the average of `n` equal samples
/// is that sample.
pub proof fn lemma_sample_count_invariant(
    cfg1: RenderConfig,
    cfg2: RenderConfig,
    row: int,
    col: int,
    ju: int,
    jv: int,
)
    requires
        cfg1.wf(),
        cfg2.wf(),
        cfg1.width == cfg2.width,
        cfg1.height == cfg2.height,
    ensures
        pixel_s(cfg1, row, col, ju, jv) == pixel_s(cfg2, row, col, ju, jv),
{
    let c = sample_color3(cfg1.width as int, cfg1.height as int, row, col, ju, jv);
    lemma_avg_exact(c.0, cfg1.samples_per_pixel as int);
    lemma_avg_exact(c.1, cfg1.samples_per_pixel as int);
    lemma_avg_exact(c.2, cfg1.samples_per_pixel as int);
    lemma_avg_exact(c.0, cfg2.samples_per_pixel as int);
    lemma_avg_exact(c.1, cfg2.samples_per_pixel as int);
    lemma_avg_exact(c.2, cfg2.samples_per_pixel as int);
}

} // verus!
