use raytracing::algebra::Vec3;
use raytracing::camera::Camera;
use raytracing::fixed::{Fx, SCALE};
use raytracing::image::{Color, Image};
use raytracing::render::{ray_color, render};
use raytracing::sphere::Sphere;
use raytracing::World;

fn fx(millionths: i128) -> Fx {
    Fx { v: millionths }
}

fn vec(x: i128, y: i128, z: i128) -> Vec3 {
    Vec3 { x: fx(x * SCALE), y: fx(y * SCALE), z: fx(z * SCALE) }
}

fn two_sphere_world() -> World {
    let mut w = World::default();
    w.objects.push(Sphere::new(vec(0, 0, -1), fx(SCALE / 2)));
    w.objects.push(Sphere::new(vec(0, -100, -1), fx(100 * SCALE)));
    w
}

#[test]
fn ray_color_with_no_budget_is_black() {
    let w = two_sphere_world();
    let r = raytracing::Ray::new(vec(0, 0, 0), vec(0, 0, -1));
    let c = ray_color(&r, &w, 0);
    assert_eq!(c.x.v, 0);
    assert_eq!(c.y.v, 0);
    assert_eq!(c.z.v, 0);
    let c2 = ray_color(&r, &w, -3);
    assert_eq!(c2.x.v, 0);
    assert_eq!(c2.y.v, 0);
    assert_eq!(c2.z.v, 0);
}

#[test]
fn straight_up_miss_is_sky_blue() {
    let w = World::default();
    let r = raytracing::Ray::new(vec(0, 0, 0), vec(0, 1, 0));
    let c = ray_color(&r, &w, 10);
    assert_eq!(c.x.v, 500000);
    assert_eq!(c.y.v, 700000);
    assert_eq!(c.z.v, SCALE);
}

#[test]
fn straight_down_miss_is_white() {
    let w = World::default();
    let r = raytracing::Ray::new(vec(0, 0, 0), vec(0, -1, 0));
    let c = ray_color(&r, &w, 10);
    assert_eq!(c.x.v, SCALE);
    assert_eq!(c.y.v, SCALE);
    assert_eq!(c.z.v, SCALE);
}

#[test]
fn diffuse_bounce_halves_the_radiance_bound() {
    let w = two_sphere_world();
    let r = raytracing::Ray::new(vec(0, 0, 0), vec(0, 0, -1));
    for _ in 0..50 {
        let c = ray_color(&r, &w, 2);
        // One bounce at albedo one half, then at most full sky radiance.
        assert!(0 <= c.x.v && c.x.v <= 750000);
        assert!(0 <= c.y.v && c.y.v <= 750000);
        assert!(0 <= c.z.v && c.z.v <= 750000);
    }
}

#[test]
fn two_by_two_render_of_empty_world_is_the_exact_gradient() {
    // With no geometry no scattering happens, so only the camera ray enters
    // the background formula; jitter 0 gives u, v in {0, 1} exactly.
    let w = World::default();
    let cam = Camera::new();
    let mut pixels: Vec<Color> = Vec::new();
    for y in 0..2i128 {
        for x in 0..2i128 {
            let u = fx(x * SCALE);
            let v = fx(y * SCALE);
            let ray = cam.cast_ray(u, v);
            pixels.push(ray_color(&ray, &w, 1));
        }
    }
    let mut img = Image::new(2, 2);
    img.set_data(pixels);
    let out = img.write_ppm(1);
    let expected = b"P3\n2 2\n255\n204 226 255\n204 226 255\n237 245 255\n237 245 255\n";
    assert_eq!(out, expected.to_vec());
}

#[test]
fn full_radiance_accumulator_encodes_as_255() {
    for spp in [1i32, 2, 7, 100, 4096, 15000, 600001] {
        let acc = spp as i128 * SCALE;
        let mut img = Image::new(1, 1);
        img.set_data(vec![Vec3 { x: fx(acc), y: fx(acc), z: fx(acc) }]);
        let out = img.write_ppm(spp);
        assert_eq!(out, b"P3\n1 1\n255\n255 255 255\n".to_vec());
    }
}

#[test]
fn quarter_radiance_encodes_as_128() {
    let mut img = Image::new(1, 1);
    img.set_data(vec![Vec3 { x: fx(250000), y: fx(0), z: fx(SCALE) }]);
    let out = img.write_ppm(1);
    assert_eq!(out, b"P3\n1 1\n255\n128 0 255\n".to_vec());
}

#[test]
fn multi_digit_dimensions_appear_in_the_header() {
    let mut img = Image::new(12, 2);
    img.set_data(vec![Vec3 { x: fx(0), y: fx(0), z: fx(0) }; 24]);
    let out = img.write_ppm(3);
    let mut expected = b"P3\n12 2\n255\n".to_vec();
    for _ in 0..24 {
        expected.extend_from_slice(b"0 0 0\n");
    }
    assert_eq!(out, expected);
}

#[test]
fn half_radiance_encodes_as_181() {
    // sqrt(0.5) is about 0.7071; 256 * 0.707106 rounds down to 181.
    let mut img = Image::new(1, 1);
    img.set_data(vec![Vec3 { x: fx(500000), y: fx(500000), z: fx(500000) }]);
    let out = img.write_ppm(1);
    assert_eq!(out, b"P3\n1 1\n255\n181 181 181\n".to_vec());
}

#[test]
fn render_fills_every_pixel_with_grid_colors() {
    let w = two_sphere_world();
    let cam = Camera::new();
    let pixels = render(&w, &cam, 8, 4, 2, 3);
    assert_eq!(pixels.len(), 32);
    for p in &pixels {
        assert!(p.x.v >= 0 && p.y.v >= 0 && p.z.v >= 0);
        // Two samples, each at most 1.5 in each channel.
        assert!(p.x.v <= 3 * SCALE && p.y.v <= 3 * SCALE && p.z.v <= 3 * SCALE);
    }
}
