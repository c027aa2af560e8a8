//! The render driver: the fixed pinhole camera, the one hardcoded sphere,
//! the two-branch shader, and the per-pixel sampling loop that averages
//! jittered camera rays and converts the result to integer RGB triples.

use vstd::prelude::*;
use vstd::arithmetic::div_mod::lemma_div_is_ordered;
use vstd::arithmetic::div_mod::lemma_div_is_ordered_by_denominator;
use vstd::arithmetic::div_mod::lemma_div_multiples_vanish;
use vstd::arithmetic::div_mod::lemma_div_multiples_vanish_fancy;
use vstd::arithmetic::div_mod::lemma_fundamental_div_mod_converse;
use vstd::arithmetic::mul::lemma_mul_inequality;
use vstd::arithmetic::mul::lemma_mul_upper_bound;
use vstd::arithmetic::mul::lemma_mul_strictly_positive;
use crate::fixed::SCALE;
use crate::fixed::mag;
use crate::fixed::tdiv;
use crate::fixed::fxm;
use crate::fixed::fxd;
use crate::fixed::is_sqrt;
use crate::fixed::fx_sqrt_s;
use crate::fixed::fx_mul;
use crate::fixed::fx_div;
use crate::fixed::fx_sqrt;
use crate::fixed::div_trunc;
use crate::fixed::lemma_mag_mul;
use crate::fixed::lemma_mag_tdiv;
use crate::fixed::lemma_fxm_bound;
use crate::fixed::lemma_fxd_bound;
use crate::fixed::lemma_fxm_sq_nonneg;
use crate::vec3::Vec3;
use crate::vec3::add3;
use crate::vec3::sub3;
use crate::vec3::scale3;
use crate::vec3::divc3;
use crate::vec3::dot3;
use crate::vec3::len3;
use crate::vec3::unit3;
use crate::vec3::in_bounds3;
use crate::vec3::lemma_len_sq_nonneg;
use crate::vec3::lemma_len_pos_sq_pos;
use crate::vec3::lemma_len_lower;
use crate::ray::Ray;
use crate::ray::point_at3;

verus! {

/// Scene coordinates (camera, sphere, ray origins and directions) must stay
/// within this magnitude — twenty units — so that the intersection
/// arithmetic stays within `i64`.
pub const SCENE_LIMIT: i64 = 20_000_000;

/// Magnitude bound on every component a shader can return.
pub const COLOR_LIMIT: i64 = 70_000_000_000_000;

/// Upper bound on samples per pixel, so that a pixel's accumulator fits.
pub const SAMPLES_LIMIT: u32 = 100_000;

/// The radius of the one sphere in the scene: one half.
pub const SPHERE_RADIUS: i64 = 500_000;

/// One half, as a fixed-point scalar.
pub const HALF_ONE: i64 = 500_000;

/// The output scaling factor 255.99, as a fixed-point scalar.
pub const BYTE_GAIN: i64 = 255_990_000;

/// The fixed sphere sits one unit in front of the camera.
pub open spec fn sphere_center3() -> (int, int, int) {
    (0, 0, -1_000_000)
}

/// Camera viewport: lower-left corner (-1.7778, -1, -1).
pub open spec fn cam_lower_left3() -> (int, int, int) {
    (-1_777_800, -1_000_000, -1_000_000)
}

/// Camera viewport: horizontal span (3.556, 0, 0).
pub open spec fn cam_horizontal3() -> (int, int, int) {
    (3_556_000, 0, 0)
}

/// Camera viewport: vertical span (0, 2, 0).
pub open spec fn cam_vertical3() -> (int, int, int) {
    (0, 2_000_000, 0)
}

/// The eye point: the origin.
pub open spec fn cam_origin3() -> (int, int, int) {
    (0, 0, 0)
}

/// Direction of the camera ray through screen coordinates `(u, v)`:
/// `lower_left + u * horizontal + v * vertical`.
pub open spec fn cam_dir3(u: int, v: int) -> (int, int, int) {
    add3(add3(cam_lower_left3(), scale3(u, cam_horizontal3())), scale3(v, cam_vertical3()))
}

/// Parametric hit distance of a ray against a sphere, solving
/// `a t^2 + b t + c = 0`; `-1.0` (as a fixed-point scalar) signals a miss.
/// A direction whose squared length rounds to zero is also reported as a
/// miss, since the quadratic degenerates there.
pub open spec fn hit_sphere_s(
    center: (int, int, int),
    radius: int,
    origin: (int, int, int),
    dir: (int, int, int),
) -> int {
    let oc = sub3(origin, center);
    let a = dot3(dir, dir);
    let b = 2 * dot3(oc, dir);
    let c = dot3(oc, oc) - fxm(radius, radius);
    let disc = fxm(b, b) - fxm(4 * a, c);
    if a == 0 || disc < 0 {
        -(SCALE as int)
    } else {
        fxd(-b - fx_sqrt_s(disc), 2 * a)
    }
}

/// The sky: a vertical gradient from white at the bottom to blue at the
/// top, blended by the unit direction's vertical component.
pub open spec fn background3(d: (int, int, int)) -> (int, int, int) {
    let ud = unit3(d);
    let t = fxm(HALF_ONE as int, ud.1 + SCALE as int);
    add3(
        scale3(SCALE as int - t, (SCALE as int, SCALE as int, SCALE as int)),
        scale3(t, (500_000int, 700_000int, SCALE as int)),
    )
}

/// The shader: surface-normal visualisation on a hit, the sky gradient on a
/// miss. A hit point that coincides with the sphere center within the
/// representation's granularity has no usable normal; the zero vector
/// stands in for it there.
pub open spec fn color_s(o: (int, int, int), d: (int, int, int)) -> (int, int, int) {
    let t = hit_sphere_s(sphere_center3(), SPHERE_RADIUS as int, o, d);
    if t > 0 {
        let nvec = sub3(point_at3(o, d, t), sphere_center3());
        let n = if len3(nvec) > 0 {
            unit3(nvec)
        } else {
            (0int, 0int, 0int)
        };
        scale3(HALF_ONE as int, (n.0 + SCALE as int, n.1 + SCALE as int, n.2 + SCALE as int))
    } else {
        background3(d)
    }
}

/// One averaged color component scaled by 255.99 and truncated to an
/// integer, the step that turns a color into an output channel.
pub open spec fn byte_s(c: int) -> int {
    tdiv(fxm(BYTE_GAIN as int, c), SCALE as int)
}

/// The camera ray through screen coordinates `(u, v)`, each nominally in
/// `[0, 1]`; values beyond that extrapolate past the viewport (up to four
/// units, the bound the arithmetic needs).
pub fn get_cam_ray(u: i64, v: i64) -> (r: Ray)
    requires
        mag(u as int) <= 4 * SCALE as int,
        mag(v as int) <= 4 * SCALE as int,
    ensures
        r.origin@ == cam_origin3(),
        r.direction@ == cam_dir3(u as int, v as int),
        in_bounds3(r.direction@, SCENE_LIMIT as int),
        dot3(r.direction@, r.direction@) >= SCALE as int,
{
    let lower_left_corner = Vec3 { x: -1_777_800, y: -1_000_000, z: -1_000_000 };
    let horizontal = Vec3 { x: 3_556_000, y: 0, z: 0 };
    let vertical = Vec3 { x: 0, y: 2_000_000, z: 0 };
    let origin = Vec3 { x: 0, y: 0, z: 0 };
    proof {
        lemma_fxm_bound(u as int, 3_556_000int, 4 * SCALE as int, 3_556_000int);
        lemma_fxm_bound(u as int, 0int, 4 * SCALE as int, 0int);
        lemma_fxm_bound(v as int, 2_000_000int, 4 * SCALE as int, 2_000_000int);
        lemma_fxm_bound(v as int, 0int, 4 * SCALE as int, 0int);
    }
    let direction = lower_left_corner.add(&horizontal.scale(u)).add(&vertical.scale(v));
    proof {
        let d = direction@;
        assert(d.2 == -(SCALE as int));
        lemma_fxm_sq_nonneg(d.0);
        lemma_fxm_sq_nonneg(d.1);
        lemma_mag_mul(d.2, d.2);
        lemma_mag_tdiv(d.2 * d.2, SCALE as int);
        assert(d.2 * d.2 == 1_000_000_000_000) by (nonlinear_arith)
            requires
                d.2 == -1_000_000,
        ;
    }
    Ray { origin, direction }
}

/// Parametric hit distance of `ray` against the sphere at `center` with
/// radius `radius`, or `-1.0` for a miss. The returned root is the smaller
/// one and is not checked for positivity: a sphere entirely behind the ray
/// origin yields a negative-but-real root, and the caller decides.
pub fn hit_sphere(center: &Vec3, radius: i64, ray: &Ray) -> (r: i64)
    requires
        in_bounds3(center@, SCENE_LIMIT as int),
        mag(radius as int) <= SCENE_LIMIT as int,
        in_bounds3(ray.origin@, SCENE_LIMIT as int),
        in_bounds3(ray.direction@, SCENE_LIMIT as int),
    ensures
        r == hit_sphere_s(center@, radius as int, ray.origin@, ray.direction@),
        dot3(ray.direction@, ray.direction@) >= SCALE as int ==> mag(r as int)
            <= 6_000_000_000int,
{
    let oc = ray.origin.sub(center);
    proof {
        let d = ray.direction@;
        let o3 = oc@;
        lemma_fxm_bound(o3.0, d.0, 40_000_000int, 20_000_000int);
        lemma_fxm_bound(o3.1, d.1, 40_000_000int, 20_000_000int);
        lemma_fxm_bound(o3.2, d.2, 40_000_000int, 20_000_000int);
        lemma_fxm_bound(o3.0, o3.0, 40_000_000int, 40_000_000int);
        lemma_fxm_bound(o3.1, o3.1, 40_000_000int, 40_000_000int);
        lemma_fxm_bound(o3.2, o3.2, 40_000_000int, 40_000_000int);
        lemma_fxm_bound(d.0, d.0, 20_000_000int, 20_000_000int);
        lemma_fxm_bound(d.1, d.1, 20_000_000int, 20_000_000int);
        lemma_fxm_bound(d.2, d.2, 20_000_000int, 20_000_000int);
        lemma_fxm_bound(radius as int, radius as int, 20_000_000int, 20_000_000int);
    }
    let a: i64 = ray.direction.dot(&ray.direction);
    let b: i64 = 2 * oc.dot(&ray.direction);
    proof {
        lemma_fxm_bound(b as int, b as int, 4_800_000_000int, 4_800_000_000int);
    }
    let c: i64 = oc.dot(&oc) - fx_mul(radius, radius);
    proof {
        lemma_fxm_bound(4 * a as int, c as int, 4_800_000_000int, 5_200_000_000int);
    }
    let discriminant: i64 = fx_mul(b, b) - fx_mul(4 * a, c);
    if a == 0 || discriminant < 0 {
        return -SCALE;
    }
    let sq: i64 = fx_sqrt(discriminant);
    proof {
        crate::fixed::lemma_sqrt_exists((discriminant as int) * (SCALE as int));
        assert(sq as int <= 7_000_000_000int) by (nonlinear_arith)
            requires
                is_sqrt((discriminant as int) * (SCALE as int), sq as int),
                0 <= discriminant as int <= 49_000_000_000_000int,
                SCALE as int == 1_000_000,
        ;
    }
    let num: i64 = -b - sq;
    let denom: i64 = 2 * a;
    proof {
        lemma_len_sq_nonneg(ray.direction@);
        lemma_fxd_bound(num as int, denom as int, 12_000_000_000int);
        if dot3(ray.direction@, ray.direction@) >= SCALE as int {
            lemma_div_is_ordered_by_denominator(
                12_000_000_000int * (SCALE as int),
                2 * SCALE as int,
                denom as int,
            );
        }
    }
    fx_div(num, denom)
}

/// The shader: normal visualisation on a hit, the sky gradient otherwise.
/// The direction must have a squared length of at least one so that the
/// quadratic and the normalization stay meaningful (and in range).
pub fn color(ray: &Ray) -> (r: Vec3)
    requires
        in_bounds3(ray.origin@, SCENE_LIMIT as int),
        in_bounds3(ray.direction@, SCENE_LIMIT as int),
        dot3(ray.direction@, ray.direction@) >= SCALE as int,
    ensures
        r@ == color_s(ray.origin@, ray.direction@),
        in_bounds3(r@, COLOR_LIMIT as int),
{
    let sphere_center = Vec3 { x: 0, y: 0, z: -1_000_000 };
    let t = hit_sphere(&sphere_center, SPHERE_RADIUS, ray);
    if t > 0 {
        proof {
            lemma_fxm_bound(t as int, ray.direction@.0, 6_000_000_000int, 20_000_000int);
            lemma_fxm_bound(t as int, ray.direction@.1, 6_000_000_000int, 20_000_000int);
            lemma_fxm_bound(t as int, ray.direction@.2, 6_000_000_000int, 20_000_000int);
        }
        let hp = ray.point_at_parameter(t);
        let nvec = hp.sub(&sphere_center);
        let l = nvec.length();
        if l > 0 {
            proof {
                lemma_len_pos_sq_pos(nvec@);
                lemma_len_lower(nvec@);
                lemma_fxd_bound(nvec@.0, len3(nvec@), 121_000_000_000int);
                lemma_fxd_bound(nvec@.1, len3(nvec@), 121_000_000_000int);
                lemma_fxd_bound(nvec@.2, len3(nvec@), 121_000_000_000int);
                lemma_div_is_ordered_by_denominator(
                    121_000_000_000int * (SCALE as int),
                    1000int,
                    len3(nvec@),
                );
            }
            let n = nvec.normalized();
            proof {
                lemma_fxm_bound(HALF_ONE as int, n@.0 + SCALE as int, 500_000int,
                    122_000_000_000_000int);
                lemma_fxm_bound(HALF_ONE as int, n@.1 + SCALE as int, 500_000int,
                    122_000_000_000_000int);
                lemma_fxm_bound(HALF_ONE as int, n@.2 + SCALE as int, 500_000int,
                    122_000_000_000_000int);
            }
            let shifted = Vec3 { x: n.x + SCALE, y: n.y + SCALE, z: n.z + SCALE };
            return shifted.scale(HALF_ONE);
        } else {
            proof {
                lemma_fxm_bound(HALF_ONE as int, SCALE as int, 500_000int, 1_000_000int);
            }
            let shifted = Vec3 { x: SCALE, y: SCALE, z: SCALE };
            return shifted.scale(HALF_ONE);
        }
    }
    proof {
        lemma_len_lower(ray.direction@);
        lemma_fxd_bound(ray.direction@.0, len3(ray.direction@), 20_000_000int);
        lemma_fxd_bound(ray.direction@.1, len3(ray.direction@), 20_000_000int);
        lemma_fxd_bound(ray.direction@.2, len3(ray.direction@), 20_000_000int);
        lemma_div_is_ordered_by_denominator(
            20_000_000int * (SCALE as int),
            1000int,
            len3(ray.direction@),
        );
    }
    let unit_direction = ray.direction.normalized();
    proof {
        lemma_fxm_bound(HALF_ONE as int, unit_direction@.1 + SCALE as int, 500_000int,
            21_000_000_000int);
    }
    let t2 = fx_mul(HALF_ONE, unit_direction.y + SCALE);
    proof {
        lemma_fxm_bound(SCALE as int - t2 as int, SCALE as int, 11_000_000_000int,
            1_000_000int);
        lemma_fxm_bound(t2 as int, SCALE as int, 11_000_000_000int, 1_000_000int);
        lemma_fxm_bound(t2 as int, 500_000int, 11_000_000_000int, 1_000_000int);
        lemma_fxm_bound(t2 as int, 700_000int, 11_000_000_000int, 1_000_000int);
    }
    let white = Vec3 { x: SCALE, y: SCALE, z: SCALE };
    let blue = Vec3 { x: 500_000, y: 700_000, z: 1_000_000 };
    white.scale(SCALE - t2).add(&blue.scale(t2))
}

/// Image dimensions and the per-pixel sample count.
#[derive(Clone, Copy, PartialEq, Eq, Structural, Debug)]
pub struct RenderConfig {
    pub width: u32,
    pub height: u32,
    pub samples_per_pixel: u32,
}

impl RenderConfig {
    /// Both dimensions are positive and the sample count is positive and
    /// within the accumulator's capacity.
    pub open spec fn wf(&self) -> bool {
        1 <= self.width && 1 <= self.height && 1 <= self.samples_per_pixel
            && self.samples_per_pixel <= SAMPLES_LIMIT
    }
}

/// One averaged color component turned into an output channel.
pub fn to_byte(c: i64) -> (r: i64)
    requires
        mag(c as int) <= COLOR_LIMIT as int,
    ensures
        r == byte_s(c as int),
{
    proof {
        lemma_fxm_bound(BYTE_GAIN as int, c as int, BYTE_GAIN as int, COLOR_LIMIT as int);
    }
    let m = fx_mul(BYTE_GAIN, c);
    div_trunc(m, SCALE)
}

/// Normalized screen coordinate of pixel `coord` of `extent`, jittered
/// within the pixel: `(coord + jitter) / extent` in fixed point.
pub open spec fn sample_u(coord: int, jitter: int, extent: int) -> int {
    (coord * (SCALE as int) + jitter) / extent
}

/// The color one sample contributes to a pixel, given the jitter pair.
pub open spec fn sample_color3(w: int, h: int, row: int, col: int, ju: int, jv: int) -> (
    int,
    int,
    int,
) {
    color_s(cam_origin3(), cam_dir3(sample_u(col, ju, w), sample_u(row, jv, h)))
}

/// The finished pixel under a fixed jitter pair: the sample color summed
/// over all samples, averaged, and scaled to output channels.
pub open spec fn pixel_s(cfg: RenderConfig, row: int, col: int, ju: int, jv: int) -> (
    int,
    int,
    int,
) {
    let n = cfg.samples_per_pixel as int;
    let c = sample_color3(cfg.width as int, cfg.height as int, row, col, ju, jv);
    let avg = divc3((n * c.0, n * c.1, n * c.2), n * (SCALE as int));
    (byte_s(avg.0), byte_s(avg.1), byte_s(avg.2))
}

/// Averaging `n` copies of one sample gives that sample back exactly.
pub proof fn lemma_avg_exact(c: int, n: int)
    requires
        n >= 1,
    ensures
        fxd(n * c, n * (SCALE as int)) == c,
{
    let s = SCALE as int;
    let d = n * s;
    lemma_mul_strictly_positive(n, s);
    lemma_mag_mul(n, c);
    lemma_mag_mul(n * c, s);
    lemma_mag_tdiv((n * c) * s, d);
    assert((n * mag(c)) * s == d * mag(c)) by (nonlinear_arith)
        requires
            d == n * s,
    ;
    lemma_div_multiples_vanish(mag(c), d);
}

/// An average of `n` samples, each within `m`, stays within `m`.
pub proof fn lemma_avg_bound(sum: int, n: int, m: int)
    requires
        n >= 1,
        0 <= m,
        mag(sum) <= n * m,
    ensures
        mag(fxd(sum, n * (SCALE as int))) <= m,
{
    let s = SCALE as int;
    let d = n * s;
    lemma_mul_strictly_positive(n, s);
    lemma_mag_mul(sum, s);
    lemma_mag_tdiv(sum * s, d);
    lemma_mul_inequality(mag(sum), n * m, s);
    lemma_div_is_ordered(mag(sum) * s, (n * m) * s, d);
    assert((n * m) * s == d * m) by (nonlinear_arith)
        requires
            d == n * s,
    ;
    lemma_div_multiples_vanish(m, d);
}

/// The jittered screen coordinate of pixel `coord` of `extent`: always in
/// `[0, 1)` in fixed point.
fn screen_coord(coord: u32, jitter: i64, extent: u32) -> (r: i64)
    requires
        coord < extent,
        0 <= jitter < SCALE as int,
    ensures
        r == sample_u(coord as int, jitter as int, extent as int),
        0 <= r < SCALE,
{
    proof {
        lemma_mul_upper_bound(coord as int, 4_294_967_295int, SCALE as int, 1_000_000int);
    }
    let num: u64 = (coord as u64) * (SCALE as u64) + (jitter as u64);
    let q: u64 = num / (extent as u64);
    proof {
        let w = extent as int;
        let s = SCALE as int;
        lemma_mul_inequality(coord as int, w - 1, s);
        assert((w - 1) * s == w * s - s) by (nonlinear_arith);
        assert(num as int <= w * s - 1);
        lemma_div_is_ordered(num as int, w * s - 1, w);
        lemma_div_multiples_vanish_fancy(s - 1, w - 1, w);
        assert(w * (s - 1) + (w - 1) == w * s - 1) by (nonlinear_arith);
        vstd::arithmetic::div_mod::lemma_div_pos_is_pos(num as int, w);
    }
    q as i64
}

/// Relies on rand::random::<u64>(): an independently drawn value; nothing
/// is assumed about it.
#[verifier::external_body]
fn random_u64() -> u64 {
    rand::random::<u64>()
}

/// A uniform jitter in `[0, 1)` in fixed point, from the thread's random
/// number generator.
fn random_jitter() -> (r: i64)
    ensures
        0 <= r < SCALE,
{
    let x: u64 = random_u64();
    (x % (SCALE as u64)) as i64
}

/// One pixel under a fixed jitter pair: accumulates the (identical) sample
/// colors, averages them, and scales to output channels. Deterministic, and
/// pinned exactly to `pixel_s`.
pub fn render_pixel(cfg: &RenderConfig, row: u32, col: u32, ju: i64, jv: i64) -> (r: (
    i64,
    i64,
    i64,
))
    requires
        cfg.wf(),
        row < cfg.height,
        col < cfg.width,
        0 <= ju < SCALE as int,
        0 <= jv < SCALE as int,
    ensures
        (r.0 as int, r.1 as int, r.2 as int) == pixel_s(
            *cfg,
            row as int,
            col as int,
            ju as int,
            jv as int,
        ),
{
    let u = screen_coord(col, ju, cfg.width);
    let v = screen_coord(row, jv, cfg.height);
    let cray = get_cam_ray(u, v);
    let c = color(&cray);
    let mut rgb = Vec3 { x: 0, y: 0, z: 0 };
    let mut s: u32 = 0;
    while s < cfg.samples_per_pixel
        invariant
            s <= cfg.samples_per_pixel <= SAMPLES_LIMIT,
            in_bounds3(c@, COLOR_LIMIT as int),
            rgb@.0 == (s as int) * c@.0,
            rgb@.1 == (s as int) * c@.1,
            rgb@.2 == (s as int) * c@.2,
        decreases cfg.samples_per_pixel - s,
    {
        proof {
            let si = s as int;
            assert((si + 1) * c@.0 == si * c@.0 + c@.0) by (nonlinear_arith);
            assert((si + 1) * c@.1 == si * c@.1 + c@.1) by (nonlinear_arith);
            assert((si + 1) * c@.2 == si * c@.2 + c@.2) by (nonlinear_arith);
            lemma_mag_mul(si + 1, c@.0);
            lemma_mag_mul(si + 1, c@.1);
            lemma_mag_mul(si + 1, c@.2);
            lemma_mul_upper_bound(si + 1, 100_000int, mag(c@.0), 70_000_000_000_000int);
            lemma_mul_upper_bound(si + 1, 100_000int, mag(c@.1), 70_000_000_000_000int);
            lemma_mul_upper_bound(si + 1, 100_000int, mag(c@.2), 70_000_000_000_000int);
        }
        rgb.add_assign(&c);
        s = s + 1;
    }
    let n = cfg.samples_per_pixel;
    let ns: i64 = (n as i64) * SCALE;
    proof {
        lemma_mag_mul(n as int, c@.0);
        lemma_mag_mul(n as int, c@.1);
        lemma_mag_mul(n as int, c@.2);
        lemma_mul_upper_bound(n as int, 100_000int, mag(c@.0), 70_000_000_000_000int);
        lemma_mul_upper_bound(n as int, 100_000int, mag(c@.1), 70_000_000_000_000int);
        lemma_mul_upper_bound(n as int, 100_000int, mag(c@.2), 70_000_000_000_000int);
        lemma_fxd_bound(rgb@.0, ns as int, 7_000_000_000_000_000_000int);
        lemma_fxd_bound(rgb@.1, ns as int, 7_000_000_000_000_000_000int);
        lemma_fxd_bound(rgb@.2, ns as int, 7_000_000_000_000_000_000int);
    }
    rgb.div_assign(ns);
    proof {
        lemma_avg_exact(c@.0, n as int);
        lemma_avg_exact(c@.1, n as int);
        lemma_avg_exact(c@.2, n as int);
    }
    (to_byte(rgb.x), to_byte(rgb.y), to_byte(rgb.z))
}

/// The pixel at flat index `k` of the emitted stream matches `pixel_s` for
/// its row and column. Rows are emitted from index `height - 1` down to 0,
/// columns in increasing order.
pub open spec fn pixel_ok(p: (i64, i64, i64), cfg: RenderConfig, k: int, ju: int, jv: int) -> bool {
    (p.0 as int, p.1 as int, p.2 as int) == pixel_s(
        cfg,
        (cfg.height as int) - 1 - k / (cfg.width as int),
        k % (cfg.width as int),
        ju,
        jv,
    )
}

/// The whole image under one fixed jitter pair: `width * height` pixels,
/// each pinned exactly to `pixel_s`, rows emitted top index first.
pub fn render_with_jitter(cfg: &RenderConfig, ju: i64, jv: i64) -> (out: Vec<(i64, i64, i64)>)
    requires
        cfg.wf(),
        0 <= ju < SCALE as int,
        0 <= jv < SCALE as int,
    ensures
        out@.len() == (cfg.width as int) * (cfg.height as int),
        forall|k: int|
            0 <= k < out@.len() ==> #[trigger] pixel_ok(out@[k], *cfg, k, ju as int, jv as int),
{
    let w = cfg.width;
    let h = cfg.height;
    let mut out: Vec<(i64, i64, i64)> = Vec::new();
    let mut done_rows: u32 = 0;
    while done_rows < h
        invariant
            cfg.wf(),
            w == cfg.width,
            h == cfg.height,
            done_rows <= h,
            0 <= ju < SCALE as int,
            0 <= jv < SCALE as int,
            out@.len() == (done_rows as int) * (w as int),
            forall|k: int|
                0 <= k < out@.len() ==> #[trigger] pixel_ok(out@[k], *cfg, k, ju as int,
                jv as int),
        decreases h - done_rows,
    {
        let row: u32 = h - 1 - done_rows;
        let mut col: u32 = 0;
        while col < w
            invariant
                cfg.wf(),
                w == cfg.width,
                h == cfg.height,
                done_rows < h,
                row == h - 1 - done_rows,
                col <= w,
                0 <= ju < SCALE as int,
                0 <= jv < SCALE as int,
                out@.len() == (done_rows as int) * (w as int) + col as int,
                forall|k: int|
                    0 <= k < out@.len() ==> #[trigger] pixel_ok(out@[k], *cfg, k, ju as int,
                    jv as int),
            decreases w - col,
        {
            let p = render_pixel(cfg, row, col, ju, jv);
            proof {
                let k0 = (done_rows as int) * (w as int) + col as int;
                lemma_fundamental_div_mod_converse(k0, w as int, done_rows as int, col as int);
            }
            out.push(p);
            col = col + 1;
        }
        proof {
            assert(((done_rows as int) + 1) * (w as int) == (done_rows as int) * (w as int) + (
            w as int)) by (nonlinear_arith);
        }
        done_rows = done_rows + 1;
    }
    proof {
        assert((h as int) * (w as int) == (w as int) * (h as int)) by (nonlinear_arith);
    }
    out
}

/// The whole image with fresh random jitter for every sample of every
/// pixel: `width * height` output pixels, rows emitted top index first.
/// The pixel values depend on the draws; the shape does not.
pub fn render(cfg: &RenderConfig) -> (out: Vec<(i64, i64, i64)>)
    requires
        cfg.wf(),
    ensures
        out@.len() == (cfg.width as int) * (cfg.height as int),
{
    let w = cfg.width;
    let h = cfg.height;
    let mut out: Vec<(i64, i64, i64)> = Vec::new();
    let mut done_rows: u32 = 0;
    while done_rows < h
        invariant
            cfg.wf(),
            w == cfg.width,
            h == cfg.height,
            done_rows <= h,
            out@.len() == (done_rows as int) * (w as int),
        decreases h - done_rows,
    {
        let row: u32 = h - 1 - done_rows;
        let mut col: u32 = 0;
        while col < w
            invariant
                cfg.wf(),
                w == cfg.width,
                h == cfg.height,
                done_rows < h,
                row == h - 1 - done_rows,
                col <= w,
                out@.len() == (done_rows as int) * (w as int) + col as int,
            decreases w - col,
        {
            let mut rgb = Vec3 { x: 0, y: 0, z: 0 };
            let mut s: u32 = 0;
            while s < cfg.samples_per_pixel
                invariant
                    cfg.wf(),
                    w == cfg.width,
                    h == cfg.height,
                    row < h,
                    col < w,
                    s <= cfg.samples_per_pixel <= SAMPLES_LIMIT,
                    mag(rgb@.0) <= (s as int) * (COLOR_LIMIT as int),
                    mag(rgb@.1) <= (s as int) * (COLOR_LIMIT as int),
                    mag(rgb@.2) <= (s as int) * (COLOR_LIMIT as int),
                decreases cfg.samples_per_pixel - s,
            {
                let ju = random_jitter();
                let jv = random_jitter();
                let u = screen_coord(col, ju, w);
                let v = screen_coord(row, jv, h);
                let cray = get_cam_ray(u, v);
                let c = color(&cray);
                proof {
                    let si = s as int;
                    lemma_mul_inequality(si, 100_000int, COLOR_LIMIT as int);
                    assert((si + 1) * (COLOR_LIMIT as int) == si * (COLOR_LIMIT as int) + (
                    COLOR_LIMIT as int)) by (nonlinear_arith);
                }
                rgb.add_assign(&c);
                s = s + 1;
            }
            let n = cfg.samples_per_pixel;
            let ns: i64 = (n as i64) * SCALE;
            proof {
                lemma_mul_inequality(n as int, 100_000int, COLOR_LIMIT as int);
                lemma_fxd_bound(rgb@.0, ns as int, 7_000_000_000_000_000_000int);
                lemma_fxd_bound(rgb@.1, ns as int, 7_000_000_000_000_000_000int);
                lemma_fxd_bound(rgb@.2, ns as int, 7_000_000_000_000_000_000int);
                lemma_avg_bound(rgb@.0, n as int, COLOR_LIMIT as int);
                lemma_avg_bound(rgb@.1, n as int, COLOR_LIMIT as int);
                lemma_avg_bound(rgb@.2, n as int, COLOR_LIMIT as int);
            }
            rgb.div_assign(ns);
            let p = (to_byte(rgb.x), to_byte(rgb.y), to_byte(rgb.z));
            out.push(p);
            col = col + 1;
        }
        proof {
            assert(((done_rows as int) + 1) * (w as int) == (done_rows as int) * (w as int) + (
            w as int)) by (nonlinear_arith);
        }
        done_rows = done_rows + 1;
    }
    proof {
        assert((h as int) * (w as int) == (w as int) * (h as int)) by (nonlinear_arith);
    }
    out
}

} // verus!
