// The camera, intersection, shader and sampling pipeline on concrete
// values. All quantities are fixed-point scalars: 1_000_000 stands for 1.0.

use raytrace::vec3::Vec3;
use raytrace::ray::Ray;
use raytrace::render::get_cam_ray;
use raytrace::render::hit_sphere;
use raytrace::render::color;
use raytrace::render::to_byte;
use raytrace::render::render_pixel;
use raytrace::render::render_with_jitter;
use raytrace::render::render;
use raytrace::render::RenderConfig;
use raytrace::render::SPHERE_RADIUS;

const S: i64 = 1_000_000;

fn sphere_center() -> Vec3 {
    Vec3 { x: 0, y: 0, z: -S }
}

#[test]
fn head_on_ray_hits_at_half() {
    let r = Ray {
        origin: Vec3 { x: 0, y: 0, z: 0 },
        direction: Vec3 { x: 0, y: 0, z: -S },
    };
    let t = hit_sphere(&sphere_center(), SPHERE_RADIUS, &r);
    assert_eq!(t, 500_000);
}

#[test]
fn hit_point_lies_on_sphere_surface() {
    let r = Ray {
        origin: Vec3 { x: 0, y: 0, z: 0 },
        direction: Vec3 { x: 0, y: 0, z: -S },
    };
    let t = hit_sphere(&sphere_center(), SPHERE_RADIUS, &r);
    assert!(t > 0);
    let p = r.point_at_parameter(t);
    let dist = p.sub(&sphere_center()).length();
    assert_eq!(dist, SPHERE_RADIUS);
}

#[test]
fn orthogonal_offset_ray_misses() {
    let r = Ray {
        origin: Vec3 { x: 0, y: 0, z: 0 },
        direction: Vec3 { x: 0, y: S, z: 0 },
    };
    let t = hit_sphere(&sphere_center(), SPHERE_RADIUS, &r);
    assert_eq!(t, -S);
}

#[test]
fn tangent_ray_returns_repeated_root() {
    // grazes the sphere at x = radius: the discriminant is exactly zero
    let r = Ray {
        origin: Vec3 { x: SPHERE_RADIUS, y: 0, z: 0 },
        direction: Vec3 { x: 0, y: 0, z: -S },
    };
    let t = hit_sphere(&sphere_center(), SPHERE_RADIUS, &r);
    assert_eq!(t, S);
    let p = r.point_at_parameter(t);
    assert_eq!(p.sub(&sphere_center()).length(), SPHERE_RADIUS);
}

#[test]
fn shader_paints_normal_on_hit() {
    let r = Ray {
        origin: Vec3 { x: 0, y: 0, z: 0 },
        direction: Vec3 { x: 0, y: 0, z: -S },
    };
    // normal (0, 0, 1) maps to color (0.5, 0.5, 1.0)
    let c = color(&r);
    assert_eq!((c.x, c.y, c.z), (500_000, 500_000, S));
}

#[test]
fn shader_is_deterministic() {
    let r = get_cam_ray(250_000, 750_000);
    let c1 = color(&r);
    let c2 = color(&r);
    assert_eq!(c1, c2);
}

#[test]
fn background_blends_white_to_blue() {
    let up = Ray {
        origin: Vec3 { x: 0, y: 0, z: 0 },
        direction: Vec3 { x: 0, y: S, z: 0 },
    };
    let c = color(&up);
    assert_eq!((c.x, c.y, c.z), (500_000, 700_000, S));
    let down = Ray {
        origin: Vec3 { x: 0, y: 0, z: 0 },
        direction: Vec3 { x: 0, y: -S, z: 0 },
    };
    let d = color(&down);
    assert_eq!((d.x, d.y, d.z), (S, S, S));
}

#[test]
fn background_is_monotone_in_vertical_direction() {
    // rising rays shade bluer: red and green fall, blue stays put
    let mut prev: Option<(i64, i64, i64)> = None;
    let mut y: i64 = -S;
    while y <= S {
        let r = Ray {
            origin: Vec3 { x: 0, y: 0, z: 0 },
            direction: Vec3 { x: 0, y, z: 2 * S },
        };
        let c = color(&r);
        assert!(0 <= to_byte(c.x) && to_byte(c.x) <= 255);
        assert!(0 <= to_byte(c.y) && to_byte(c.y) <= 255);
        assert_eq!(to_byte(c.z), 255);
        if let Some((pr, pg, pb)) = prev {
            assert!(c.x <= pr);
            assert!(c.y <= pg);
            assert_eq!(c.z, pb);
        }
        prev = Some((c.x, c.y, c.z));
        y += 250_000;
    }
}

#[test]
fn byte_conversion_scales_and_truncates() {
    assert_eq!(to_byte(S), 255);
    assert_eq!(to_byte(500_000), 127);
    assert_eq!(to_byte(0), 0);
    // a slightly negative channel truncates toward zero
    assert_eq!(to_byte(-2), 0);
}

#[test]
fn camera_ray_through_center_points_forward() {
    let r = get_cam_ray(500_000, 500_000);
    assert_eq!((r.origin.x, r.origin.y, r.origin.z), (0, 0, 0));
    assert_eq!((r.direction.x, r.direction.y, r.direction.z), (200, 0, -S));
}

#[test]
fn end_to_end_two_by_two_fixed_jitter() {
    // 2x2 image, one sample, jitter pinned at 0.5: four background pixels,
    // the top row (emitted first) bluer than the bottom row
    let cfg = RenderConfig { width: 2, height: 2, samples_per_pixel: 1 };
    let img = render_with_jitter(&cfg, 500_000, 500_000);
    assert_eq!(img.len(), 4);
    assert_eq!(img[0], (169, 204, 255));
    assert_eq!(img[1], (169, 204, 255));
    assert_eq!(img[2], (214, 231, 255));
    assert_eq!(img[3], (214, 231, 255));
}

#[test]
fn end_to_end_pixel_that_hits_the_sphere() {
    // the center pixel of a 4x4 image looks straight at the sphere
    let hit_px = render_pixel(
        &RenderConfig { width: 4, height: 4, samples_per_pixel: 1 },
        2,
        2,
        500_000,
        500_000,
    );
    assert_eq!(hit_px, (197, 166, 228));
    let miss_px = render_pixel(
        &RenderConfig { width: 4, height: 4, samples_per_pixel: 1 },
        1,
        1,
        500_000,
        500_000,
    );
    assert_eq!(miss_px, (58, 89, 228));
}

#[test]
fn render_pixel_matches_image_order() {
    let cfg = RenderConfig { width: 3, height: 2, samples_per_pixel: 2 };
    let img = render_with_jitter(&cfg, 123_456, 654_321);
    assert_eq!(img.len(), 6);
    let mut k: usize = 0;
    let mut row: i64 = 1;
    while row >= 0 {
        let mut col: u32 = 0;
        while col < 3 {
            assert_eq!(img[k], render_pixel(&cfg, row as u32, col, 123_456, 654_321));
            k += 1;
            col += 1;
        }
        row -= 1;
    }
}

#[test]
fn sample_count_does_not_change_fixed_jitter_image() {
    let one = RenderConfig { width: 3, height: 3, samples_per_pixel: 1 };
    let many = RenderConfig { width: 3, height: 3, samples_per_pixel: 7 };
    let a = render_with_jitter(&one, 500_000, 500_000);
    let b = render_with_jitter(&many, 500_000, 500_000);
    assert_eq!(a, b);
}

#[test]
fn random_render_has_expected_shape() {
    let cfg = RenderConfig { width: 5, height: 4, samples_per_pixel: 3 };
    let img = render(&cfg);
    assert_eq!(img.len(), 20);
    for p in img.iter() {
        assert!(0 <= p.0 && p.0 <= 255);
        assert!(0 <= p.1 && p.1 <= 255);
        assert!(0 <= p.2 && p.2 <= 255);
    }
}

#[test]
fn extreme_jitter_stays_in_pixel() {
    let cfg = RenderConfig { width: 2, height: 2, samples_per_pixel: 1 };
    let low = render_pixel(&cfg, 0, 0, 0, 0);
    let high = render_pixel(&cfg, 0, 0, 999_999, 999_999);
    for p in [low, high] {
        assert!(0 <= p.0 && p.0 <= 255);
        assert!(0 <= p.1 && p.1 <= 255);
        assert!(0 <= p.2 && p.2 <= 255);
    }
}
