// Vector and ray algebra on concrete values. All quantities are fixed-point
// scalars: 1_000_000 stands for 1.0.

use raytrace::vec3::Vec3;
use raytrace::ray::Ray;

const S: i64 = 1_000_000;

#[test]
fn dot_product_exact() {
    let a = Vec3 { x: 1 * S, y: 2 * S, z: 3 * S };
    let b = Vec3 { x: 4 * S, y: 5 * S, z: 6 * S };
    // 4 + 10 + 18 = 32
    assert_eq!(a.dot(&b), 32 * S);
}

#[test]
fn dot_is_symmetric() {
    let a = Vec3 { x: 123_456, y: -789_012, z: 345_678 };
    let b = Vec3 { x: -98_765, y: 43_210, z: 1_112_131 };
    assert_eq!(a.dot(&b), b.dot(&a));
}

#[test]
fn cross_of_axes() {
    let x = Vec3 { x: S, y: 0, z: 0 };
    let y = Vec3 { x: 0, y: S, z: 0 };
    let c = x.cross(&y);
    assert_eq!((c.x, c.y, c.z), (0, 0, S));
}

#[test]
fn cross_is_anticommutative() {
    let x = Vec3 { x: S, y: 0, z: 0 };
    let y = Vec3 { x: 0, y: S, z: 0 };
    let c = y.cross(&x);
    assert_eq!((c.x, c.y, c.z), (0, 0, -S));
}

#[test]
fn length_of_three_four_zero() {
    let v = Vec3 { x: 3 * S, y: 4 * S, z: 0 };
    assert_eq!(v.length_squared(), 25 * S);
    assert_eq!(v.length(), 5 * S);
}

#[test]
fn length_is_sqrt_of_dot() {
    let v = Vec3 { x: 1_250_000, y: -2_750_000, z: 333_333 };
    let d: i64 = v.dot(&v);
    // the length squares to at most the squared length, and the next
    // integer root exceeds it
    let l: i64 = v.length();
    assert!(l * l <= d * S);
    assert!((l + 1) * (l + 1) > d * S);
}

#[test]
fn normalized_unit_length_exact_case() {
    let v = Vec3 { x: 3 * S, y: 4 * S, z: 0 };
    let n = v.normalized();
    assert_eq!((n.x, n.y, n.z), (600_000, 800_000, 0));
    assert_eq!(n.length(), S);
}

#[test]
fn normalized_unit_length_within_tolerance() {
    let v = Vec3 { x: 1_234_567, y: -2_345_678, z: 3_456_789 };
    let n = v.normalized();
    let l: i64 = n.length();
    // within a few raw units (millionths) of 1.0
    assert!((l - S).abs() <= 10, "length of normalized was {l}");
}

#[test]
fn normalize_in_place_matches_normalized() {
    let v = Vec3 { x: 10 * S, y: 10 * S, z: 10 * S };
    let n = v.normalized();
    let mut m = v;
    m.normalize();
    assert_eq!(m, n);
}

#[test]
fn add_sub_are_componentwise() {
    let a = Vec3 { x: 1, y: -2, z: 3 };
    let b = Vec3 { x: 10, y: 20, z: -30 };
    let s = a.add(&b);
    assert_eq!((s.x, s.y, s.z), (11, 18, -27));
    let d = a.sub(&b);
    assert_eq!((d.x, d.y, d.z), (-9, -22, 33));
}

#[test]
fn add_assign_accumulates() {
    let mut a = Vec3 { x: 1, y: 2, z: 3 };
    a.add_assign(&Vec3 { x: 4, y: 5, z: 6 });
    a.add_assign(&Vec3 { x: 4, y: 5, z: 6 });
    assert_eq!((a.x, a.y, a.z), (9, 12, 15));
}

#[test]
fn add_is_associative() {
    let a = Vec3 { x: 111, y: -222, z: 333 };
    let b = Vec3 { x: 4_444, y: 5_555, z: -6_666 };
    let c = Vec3 { x: -77, y: 88, z: 99 };
    assert_eq!(a.add(&b).add(&c), a.add(&b.add(&c)));
}

#[test]
fn scale_truncates_toward_zero() {
    let v = Vec3 { x: 3, y: -3, z: 1_000_001 };
    // 0.5 * v: 1.5 truncates to 1, -1.5 truncates to -1
    let h = v.scale(500_000);
    assert_eq!((h.x, h.y, h.z), (1, -1, 500_000));
}

#[test]
fn scale_distributes_within_one_unit() {
    let s: i64 = 333_333;
    let a = Vec3 { x: 1_000_001, y: 7, z: -5 };
    let b = Vec3 { x: 1, y: 8, z: -6 };
    let lhs = a.add(&b).scale(s);
    let rhs = a.scale(s).add(&b.scale(s));
    assert!((lhs.x - rhs.x).abs() <= 1);
    assert!((lhs.y - rhs.y).abs() <= 1);
    assert!((lhs.z - rhs.z).abs() <= 1);
}

#[test]
fn divide_by_scalar() {
    let v = Vec3 { x: 2 * S, y: -4 * S, z: 6 * S };
    let d = v.divide(-2 * S);
    assert_eq!((d.x, d.y, d.z), (-S, 2 * S, -3 * S));
}

#[test]
fn divide_truncates_toward_zero() {
    let v = Vec3 { x: S, y: -S, z: 0 };
    // 1.0 / 0.3 = 3.3333... truncated
    let d = v.divide(300_000);
    assert_eq!((d.x, d.y, d.z), (3_333_333, -3_333_333, 0));
}

#[test]
fn div_assign_matches_divide() {
    let v = Vec3 { x: 7 * S, y: -3 * S, z: 11 };
    let d = v.divide(2 * S);
    let mut m = v;
    m.div_assign(2 * S);
    assert_eq!(m, d);
}

#[test]
fn point_at_zero_is_origin() {
    let r = Ray {
        origin: Vec3 { x: S, y: 2 * S, z: 3 * S },
        direction: Vec3 { x: -S, y: 5 * S, z: 7 },
    };
    let p = r.point_at_parameter(0);
    assert_eq!(p, r.origin);
}

#[test]
fn point_at_is_affine() {
    let r = Ray {
        origin: Vec3 { x: S, y: S, z: S },
        direction: Vec3 { x: 2 * S, y: 0, z: -S },
    };
    let p = r.point_at_parameter(2 * S);
    // origin + 2 * direction
    assert_eq!((p.x, p.y, p.z), (5 * S, S, -S));
    // displacement equals the scaled direction
    let q = r.point_at_parameter(3 * S);
    let disp = q.sub(&r.origin);
    let sc = r.direction.scale(3 * S);
    assert_eq!(disp, sc);
}
