use raytracing::algebra::{cross, dot, Vec3};
use raytracing::fixed::{Fx, SCALE};
use raytracing::{random, random_range};

fn fx(millionths: i128) -> Fx {
    Fx { v: millionths }
}

fn vec(x: i128, y: i128, z: i128) -> Vec3 {
    Vec3 { x: fx(x * SCALE), y: fx(y * SCALE), z: fx(z * SCALE) }
}

#[test]
fn dot_is_symmetric() {
    let a = vec(1, 2, 3);
    let b = vec(-4, 5, 6);
    assert_eq!(dot(a, b).v, dot(b, a).v);
    assert_eq!(dot(a, b).v, (-4 + 10 + 18) * SCALE);
}

#[test]
fn dot_is_bilinear_on_integer_vectors() {
    let a = vec(1, 2, 3);
    let b = vec(4, -5, 6);
    let c = vec(7, 8, -9);
    let sum = a.add(b);
    assert_eq!(dot(sum, c).v, dot(a, c).v + dot(b, c).v);
    let scaled = a.mul(fx(3 * SCALE));
    assert_eq!(dot(scaled, b).v, 3 * dot(a, b).v);
}

#[test]
fn cross_is_antisymmetric() {
    let a = vec(1, 2, 3);
    let b = vec(4, 5, 6);
    let ab = cross(a, b);
    let ba = cross(b, a);
    assert_eq!(ab.x.v, -ba.x.v);
    assert_eq!(ab.y.v, -ba.y.v);
    assert_eq!(ab.z.v, -ba.z.v);
}

#[test]
fn cross_is_perpendicular_to_both_arguments() {
    let a = vec(1, 2, 3);
    let b = vec(4, 5, 6);
    let c = cross(a, b);
    assert_eq!(dot(c, a).v, 0);
    assert_eq!(dot(c, b).v, 0);
}

#[test]
fn unit_vector_of_pythagorean_triple_has_exact_unit_length() {
    let v = vec(3, 4, 0);
    assert_eq!(v.length().v, 5 * SCALE);
    let u = v.unit_vector();
    assert_eq!(u.x.v, 600000);
    assert_eq!(u.y.v, 800000);
    assert_eq!(u.length().v, SCALE);
}

#[test]
fn unit_vector_length_is_within_one_grid_step_for_ones() {
    let v = vec(1, 1, 1);
    let u = v.unit_vector();
    let len = u.length().v;
    assert_eq!(len, 999999);
    assert!((len - SCALE).abs() <= 1);
}

#[test]
fn divide_then_multiply_returns_close_to_original() {
    let v = vec(1, 2, 3);
    let s = fx(7 * SCALE);
    let back = v.div(s).mul(s);
    assert_eq!(back.x.v, 999999);
    assert_eq!(back.y.v, 1999998);
    assert_eq!(back.z.v, 2999997);
    assert!((back.x.v - SCALE).abs() <= 8);
    assert!((back.y.v - 2 * SCALE).abs() <= 8);
    assert!((back.z.v - 3 * SCALE).abs() <= 8);
}

#[test]
fn length_squared_matches_dot_with_self() {
    let v = vec(-2, 3, 6);
    assert_eq!(v.length_sqaured().v, dot(v, v).v);
    assert_eq!(v.length().v, 7 * SCALE);
}

#[test]
fn random_is_in_unit_interval() {
    for _ in 0..1000 {
        let r = random();
        assert!(0 <= r.v && r.v < SCALE);
    }
}

#[test]
fn random_range_stays_in_range() {
    let min = fx(2 * SCALE);
    let max = fx(5 * SCALE);
    for _ in 0..1000 {
        let r = random_range(min, max);
        assert!(min.v <= r.v && r.v < max.v);
    }
}

#[test]
fn random_in_unit_sphere_is_inside_the_ball() {
    for _ in 0..100 {
        let p = Vec3::random_in_unit_sphere();
        assert!(0 <= p.x.v && p.x.v < SCALE);
        assert!(0 <= p.y.v && p.y.v < SCALE);
        assert!(0 <= p.z.v && p.z.v < SCALE);
        assert!(p.length_sqaured().v < SCALE);
    }
}

#[test]
fn random_unit_vector_has_positive_bounded_length() {
    for _ in 0..100 {
        let u = raytracing::algebra::random_unit_vector();
        let ls = u.length_sqaured().v;
        assert!(0 < ls && ls <= 4 * SCALE);
    }
}
