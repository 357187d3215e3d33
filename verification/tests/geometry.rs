use raytracing::algebra::Vec3;
use raytracing::camera::Camera;
use raytracing::fixed::{Fx, LIM, SCALE};
use raytracing::sphere::Sphere;
use raytracing::{Hit, Hittable, Ray, World};

fn fx(millionths: i128) -> Fx {
    Fx { v: millionths }
}

fn vec(x: i128, y: i128, z: i128) -> Vec3 {
    Vec3 { x: fx(x * SCALE), y: fx(y * SCALE), z: fx(z * SCALE) }
}

fn down_z_ray() -> Ray {
    Ray::new(vec(0, 0, 0), vec(0, 0, -1))
}

#[test]
fn ray_at_walks_the_parametric_line() {
    let r = Ray::new(vec(1, 2, 3), vec(0, 0, -1));
    let p = r.at(fx(2 * SCALE));
    assert_eq!(p.x.v, SCALE);
    assert_eq!(p.y.v, 2 * SCALE);
    assert_eq!(p.z.v, SCALE);
}

#[test]
fn ray_through_center_enters_at_distance_minus_radius() {
    let s = Sphere::new(vec(0, 0, -3), fx(SCALE));
    let mut out = Hit::default();
    let found = s.hit(&down_z_ray(), fx(0), fx(LIM), &mut out);
    assert!(found);
    assert_eq!(out.t.v, 2 * SCALE);
    // The normal points back along the ray.
    assert_eq!(out.normal.x.v, 0);
    assert_eq!(out.normal.y.v, 0);
    assert_eq!(out.normal.z.v, SCALE);
    assert!(out.front_face);
}

#[test]
fn ray_beyond_closest_approach_misses() {
    let s = Sphere::new(vec(0, 3, -5), fx(SCALE));
    let mut out = Hit::default();
    let found = s.hit(&down_z_ray(), fx(0), fx(LIM), &mut out);
    assert!(!found);
    // A miss leaves the record untouched.
    assert_eq!(out.t.v, 0);
    assert_eq!(out.point.x.v, 0);
}

#[test]
fn tangent_ray_reports_exactly_one_accepted_root() {
    let s = Sphere::new(vec(1, 0, -5), fx(SCALE));
    let mut out = Hit::default();
    let found = s.hit(&down_z_ray(), fx(0), fx(LIM), &mut out);
    assert!(found);
    assert_eq!(out.t.v, 5 * SCALE);
}

#[test]
fn ray_from_inside_hits_forward_with_inward_normal() {
    let s = Sphere::new(vec(0, 0, 0), fx(SCALE));
    let mut out = Hit::default();
    let found = s.hit(&down_z_ray(), fx(0), fx(LIM), &mut out);
    assert!(found);
    assert_eq!(out.t.v, SCALE);
    assert!(!out.front_face);
    // The stored normal opposes the outward surface normal (0, 0, -1).
    assert_eq!(out.normal.z.v, SCALE);
}

#[test]
fn world_returns_nearest_hit_regardless_of_insertion_order() {
    let near = Sphere::new(vec(0, 0, -3), fx(SCALE));
    let far = Sphere::new(vec(0, 0, -7), fx(SCALE));

    let mut w1 = World::default();
    w1.objects.push(near);
    w1.objects.push(far);
    let mut out1 = Hit::default();
    assert!(w1.hit(&down_z_ray(), fx(0), fx(LIM), &mut out1));
    assert_eq!(out1.t.v, 2 * SCALE);

    let mut w2 = World::default();
    w2.objects.push(far);
    w2.objects.push(near);
    let mut out2 = Hit::default();
    assert!(w2.hit(&down_z_ray(), fx(0), fx(LIM), &mut out2));
    assert_eq!(out2.t.v, 2 * SCALE);

    assert_eq!(out1.point.z.v, out2.point.z.v);
}

#[test]
fn empty_world_reports_no_hit() {
    let w = World::default();
    let mut out = Hit::default();
    assert!(!w.hit(&down_z_ray(), fx(0), fx(LIM), &mut out));
    assert_eq!(out.t.v, 0);
}

#[test]
fn camera_derives_the_documented_viewport() {
    let cam = Camera::new();
    assert_eq!(cam.origin.x.v, 0);
    assert_eq!(cam.horizontal.x.v, 3555554);
    assert_eq!(cam.vertical.y.v, 2 * SCALE);
    assert_eq!(cam.lower_left_corner.x.v, -1777777);
    assert_eq!(cam.lower_left_corner.y.v, -SCALE);
    assert_eq!(cam.lower_left_corner.z.v, -SCALE);
}

#[test]
fn camera_cast_ray_spans_the_viewport() {
    let cam = Camera::new();
    let r00 = cam.cast_ray(fx(0), fx(0));
    assert_eq!(r00.direction.x.v, -1777777);
    assert_eq!(r00.direction.y.v, -SCALE);
    assert_eq!(r00.direction.z.v, -SCALE);
    let r11 = cam.cast_ray(fx(SCALE), fx(SCALE));
    assert_eq!(r11.direction.x.v, 1777777);
    assert_eq!(r11.direction.y.v, SCALE);
    assert_eq!(r11.direction.z.v, -SCALE);
}
