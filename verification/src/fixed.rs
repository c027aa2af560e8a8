//! Fixed-point scalars: an `i64` holds a real number scaled by `SCALE`
//! (one million), and every operation truncates toward zero, as a
//! float-to-integer conversion does. The spec functions `fxm`, `fxd` and
//! `fx_sqrt_s` are the mathematical model of multiplication, division and
//! square root on this representation; the executable functions return
//! exactly those values.

use vstd::prelude::*;
use vstd::arithmetic::div_mod::lemma_div_is_ordered;
use vstd::arithmetic::div_mod::lemma_div_is_ordered_by_denominator;
use vstd::arithmetic::div_mod::lemma_div_nonincreasing;
use vstd::arithmetic::div_mod::lemma_div_pos_is_pos;
use vstd::arithmetic::div_mod::lemma_div_multiples_vanish;
use vstd::arithmetic::mul::lemma_mul_upper_bound;
use vstd::arithmetic::mul::lemma_mul_inequality;

verus! {

/// Raw units per 1.0: the representation of one.
pub const SCALE: i64 = 1_000_000;

/// Magnitude (absolute value) of a mathematical integer.
pub open spec fn mag(a: int) -> int {
    if a < 0 {
        -a
    } else {
        a
    }
}

/// Division truncated toward zero, the rounding a float-to-int cast uses.
/// Only meaningful for `b != 0`.
pub open spec fn tdiv(a: int, b: int) -> int {
    if (a < 0) != (b < 0) {
        -(mag(a) / mag(b))
    } else {
        mag(a) / mag(b)
    }
}

/// Product of two fixed-point scalars: `(a * b) / SCALE`, truncated.
pub open spec fn fxm(a: int, b: int) -> int {
    tdiv(a * b, SCALE as int)
}

/// Quotient of two fixed-point scalars: `(a * SCALE) / b`, truncated.
pub open spec fn fxd(a: int, b: int) -> int {
    tdiv(a * (SCALE as int), b)
}

/// `r` is the integer square root of `n`.
pub open spec fn is_sqrt(n: int, r: int) -> bool {
    0 <= r && r * r <= n && n < (r + 1) * (r + 1)
}

/// The integer square root of a nonnegative `n`.
pub open spec fn sqrt_i(n: int) -> int {
    choose|r: int| is_sqrt(n, r)
}

/// Square root of a nonnegative fixed-point scalar: since `a` stands for
/// `a / SCALE`, the root is `sqrt(a * SCALE)` in raw units.
pub open spec fn fx_sqrt_s(a: int) -> int {
    sqrt_i(a * (SCALE as int))
}

/// The magnitude of a product is the product of the magnitudes, and the
/// sign of a product follows the signs of its factors.
pub proof fn lemma_mag_mul(a: int, b: int)
    ensures
        mag(a * b) == mag(a) * mag(b),
        ((a < 0) != (b < 0)) ==> a * b <= 0,
        (!((a < 0) != (b < 0))) ==> a * b >= 0,
        (a != 0 && b != 0) ==> a * b != 0,
{
    if a >= 0 && b >= 0 {
        assert(a * b >= 0) by (nonlinear_arith)
            requires
                a >= 0,
                b >= 0,
        ;
        assert((a != 0 && b != 0) ==> a * b != 0) by (nonlinear_arith);
    } else if a >= 0 && b < 0 {
        assert(a * (-b) >= 0 && a * (-b) == -(a * b)) by (nonlinear_arith)
            requires
                a >= 0,
                b < 0,
        ;
        assert((a != 0 && b != 0) ==> a * b != 0) by (nonlinear_arith);
    } else if a < 0 && b >= 0 {
        assert((-a) * b >= 0 && (-a) * b == -(a * b)) by (nonlinear_arith)
            requires
                a < 0,
                b >= 0,
        ;
        assert((a != 0 && b != 0) ==> a * b != 0) by (nonlinear_arith);
    } else {
        assert((-a) * (-b) >= 0 && (-a) * (-b) == a * b) by (nonlinear_arith)
            requires
                a < 0,
                b < 0,
        ;
        assert((a != 0 && b != 0) ==> a * b != 0) by (nonlinear_arith);
    }
}

/// The magnitude of a truncated quotient is the quotient of the magnitudes.
pub proof fn lemma_mag_tdiv(a: int, b: int)
    requires
        b != 0,
    ensures
        mag(tdiv(a, b)) == mag(a) / mag(b),
        0 <= mag(a) / mag(b),
{
    lemma_div_pos_is_pos(mag(a), mag(b));
}

/// Truncated division by a positive divisor is monotone.
pub proof fn lemma_tdiv_mono(p1: int, p2: int, d: int)
    requires
        p1 <= p2,
        d > 0,
    ensures
        tdiv(p1, d) <= tdiv(p2, d),
{
    lemma_mag_tdiv(p1, d);
    lemma_mag_tdiv(p2, d);
    if p1 >= 0 {
        lemma_div_is_ordered(p1, p2, d);
    } else if p2 < 0 {
        lemma_div_is_ordered(-p2, -p1, d);
    } else {
        lemma_div_pos_is_pos(mag(p1), d);
        lemma_div_pos_is_pos(mag(p2), d);
    }
}

/// A bound on the numerator bounds a truncated quotient.
pub proof fn lemma_tdiv_mag_le(a: int, b: int, m: int)
    requires
        b != 0,
        mag(a) <= m,
    ensures
        mag(tdiv(a, b)) <= m / mag(b),
        mag(tdiv(a, b)) <= m,
{
    lemma_mag_tdiv(a, b);
    lemma_div_is_ordered(mag(a), m, mag(b));
    lemma_div_nonincreasing(m, mag(b));
}

/// Bounds on the factors bound a fixed-point product.
pub proof fn lemma_fxm_bound(a: int, b: int, am: int, bm: int)
    requires
        mag(a) <= am,
        mag(b) <= bm,
    ensures
        mag(fxm(a, b)) <= (am * bm) / (SCALE as int),
        mag(fxm(a, b)) <= am * bm,
{
    lemma_mag_mul(a, b);
    lemma_mul_upper_bound(mag(a), am, mag(b), bm);
    lemma_tdiv_mag_le(a * b, SCALE as int, am * bm);
}

/// Bounds on the numerator and denominator bound a fixed-point quotient.
pub proof fn lemma_fxd_bound(a: int, b: int, am: int)
    requires
        b != 0,
        mag(a) <= am,
    ensures
        mag(fxd(a, b)) <= (am * (SCALE as int)) / mag(b),
        mag(fxd(a, b)) <= am * (SCALE as int),
        mag(b) >= SCALE as int ==> mag(fxd(a, b)) <= am,
{
    lemma_mag_mul(a, SCALE as int);
    lemma_mul_upper_bound(mag(a), am, SCALE as int, SCALE as int);
    lemma_tdiv_mag_le(a * (SCALE as int), b, am * (SCALE as int));
    if mag(b) >= SCALE as int {
        lemma_div_is_ordered_by_denominator(am * (SCALE as int), SCALE as int, mag(b));
        lemma_div_multiples_vanish(am, SCALE as int);
    }
}

/// A fixed-point square is nonnegative.
pub proof fn lemma_fxm_sq_nonneg(a: int)
    ensures
        0 <= fxm(a, a),
{
    lemma_mag_mul(a, a);
    lemma_mag_tdiv(a * a, SCALE as int);
}

/// A fixed-point product with a nonnegative left factor is monotone in the
/// right factor.
pub proof fn lemma_fxm_mono(c: int, w1: int, w2: int)
    requires
        c >= 0,
        w1 <= w2,
    ensures
        fxm(c, w1) <= fxm(c, w2),
{
    lemma_mul_inequality(w1, w2, c);
    assert(w1 * c == c * w1) by (nonlinear_arith);
    assert(w2 * c == c * w2) by (nonlinear_arith);
    lemma_tdiv_mono(c * w1, c * w2, SCALE as int);
}

/// The integer square root exists for every nonnegative argument.
pub proof fn lemma_sqrt_exists(n: int)
    requires
        n >= 0,
    ensures
        is_sqrt(n, sqrt_i(n)),
    decreases n,
{
    if n == 0 {
        assert(is_sqrt(0, 0));
    } else {
        lemma_sqrt_exists(n - 1);
        let r = sqrt_i(n - 1);
        if (r + 1) * (r + 1) <= n {
            assert((r + 2) * (r + 2) > (r + 1) * (r + 1)) by (nonlinear_arith)
                requires
                    r >= 0,
            ;
            assert(is_sqrt(n, r + 1));
        } else {
            assert(is_sqrt(n, r));
        }
    }
    assert(exists|x: int| is_sqrt(n, x));
}

/// The integer square root is unique.
pub proof fn lemma_sqrt_unique(n: int, r: int)
    requires
        is_sqrt(n, r),
    ensures
        r == sqrt_i(n),
{
    assert(exists|x: int| is_sqrt(n, x));
    let s = sqrt_i(n);
    assert(is_sqrt(n, s));
    if r < s {
        lemma_mul_inequality(r + 1, s, r + 1);
        lemma_mul_inequality(r + 1, s, s);
        assert((r + 1) * (r + 1) <= s * s) by (nonlinear_arith)
            requires
                0 <= r + 1,
                r + 1 <= s,
        ;
    } else if s < r {
        assert((s + 1) * (s + 1) <= r * r) by (nonlinear_arith)
            requires
                0 <= s + 1,
                s + 1 <= r,
        ;
    }
}

/// Magnitude of an `i64`, as a `u64`.
fn mag_u64(a: i64) -> (r: u64)
    requires
        a != i64::MIN,
    ensures
        r as int == mag(a as int),
{
    if a < 0 {
        (-a) as u64
    } else {
        a as u64
    }
}

/// Truncated division of two machine scalars (not fixed-point rescaled).
pub fn div_trunc(a: i64, b: i64) -> (r: i64)
    requires
        a != i64::MIN,
        b != i64::MIN,
        b != 0,
    ensures
        r == tdiv(a as int, b as int),
{
    let neg: bool = (a < 0) != (b < 0);
    let ma: u64 = mag_u64(a);
    let mb: u64 = mag_u64(b);
    let q: u64 = ma / mb;
    proof {
        lemma_mag_tdiv(a as int, b as int);
        lemma_div_nonincreasing(ma as int, mb as int);
    }
    if neg {
        -(q as i64)
    } else {
        q as i64
    }
}

/// Fixed-point multiplication: returns exactly `fxm(a, b)`.
pub fn fx_mul(a: i64, b: i64) -> (r: i64)
    requires
        a != i64::MIN,
        b != i64::MIN,
        mag(fxm(a as int, b as int)) <= i64::MAX as int,
    ensures
        r == fxm(a as int, b as int),
{
    let neg: bool = (a < 0) != (b < 0);
    let ma: u64 = mag_u64(a);
    let mb: u64 = mag_u64(b);
    proof {
        lemma_mag_mul(a as int, b as int);
        lemma_mag_tdiv((a as int) * (b as int), SCALE as int);
        lemma_mul_upper_bound(ma as int, i64::MAX as int, mb as int, i64::MAX as int);
    }
    let p: u128 = (ma as u128) * (mb as u128);
    let q: u128 = p / (SCALE as u128);
    if neg {
        -(q as i64)
    } else {
        q as i64
    }
}

/// Fixed-point division: returns exactly `fxd(a, b)`.
pub fn fx_div(a: i64, b: i64) -> (r: i64)
    requires
        a != i64::MIN,
        b != i64::MIN,
        b != 0,
        mag(fxd(a as int, b as int)) <= i64::MAX as int,
    ensures
        r == fxd(a as int, b as int),
{
    let neg: bool = (a < 0) != (b < 0);
    let ma: u64 = mag_u64(a);
    let mb: u64 = mag_u64(b);
    proof {
        lemma_mag_mul(a as int, SCALE as int);
        lemma_mag_tdiv((a as int) * (SCALE as int), b as int);
        lemma_mul_upper_bound(ma as int, i64::MAX as int, SCALE as int, SCALE as int);
        assert(((a as int) < 0) != (((a as int) * (SCALE as int)) < 0) ==> (a as int) * (
        SCALE as int) == 0) by {
            lemma_mag_mul(a as int, SCALE as int);
        }
    }
    let p: u128 = (ma as u128) * (SCALE as u128);
    let q: u128 = p / (mb as u128);
    if neg {
        -(q as i64)
    } else {
        q as i64
    }
}

/// Integer square root of a `u128` by binary search.
fn isqrt_u(n: u128) -> (r: u128)
    requires
        n < 0x4000_0000_0000_0000_0000_0000_0000_0000u128,
    ensures
        is_sqrt(n as int, r as int),
{
    let mut lo: u128 = 0;
    let mut hi: u128 = 0x8000_0000_0000_0000;
    proof {
        assert((0x8000_0000_0000_0000int + 1) * (0x8000_0000_0000_0000int + 1)
            > 0x4000_0000_0000_0000_0000_0000_0000_0000int) by (nonlinear_arith);
    }
    while lo < hi
        invariant
            0 <= lo <= hi <= 0x8000_0000_0000_0000,
            (lo as int) * (lo as int) <= n as int,
            (n as int) < ((hi as int) + 1) * ((hi as int) + 1),
        decreases hi - lo,
    {
        let mid: u128 = lo + (hi - lo + 1) / 2;
        proof {
            lemma_mul_upper_bound(mid as int, 0x8000_0000_0000_0000int, mid as int,
                0x8000_0000_0000_0000int);
        }
        let sq: u128 = mid * mid;
        if sq <= n {
            lo = mid;
        } else {
            hi = mid - 1;
        }
    }
    lo
}

/// Fixed-point square root of a nonnegative scalar: returns exactly
/// `fx_sqrt_s(a)`.
pub fn fx_sqrt(a: i64) -> (r: i64)
    requires
        0 <= a,
    ensures
        r == fx_sqrt_s(a as int),
        0 <= r,
{
    proof {
        lemma_mul_upper_bound(a as int, i64::MAX as int, SCALE as int, SCALE as int);
    }
    let n: u128 = (a as u128) * (SCALE as u128);
    let r: u128 = isqrt_u(n);
    proof {
        lemma_sqrt_unique(n as int, r as int);
        assert(r as int <= i64::MAX as int) by (nonlinear_arith)
            requires
                is_sqrt(n as int, r as int),
                n as int <= (i64::MAX as int) * (SCALE as int),
        ;
    }
    r as i64
}

} // verus!
