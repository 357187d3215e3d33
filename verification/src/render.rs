//! The recursive Monte-Carlo integrator and the sampling loop.
//!
//! `ray_color` turns a ray, a scene and a remaining bounce budget into a
//! radiance estimate: black when the budget is spent, a diffuse bounce
//! scaled by one half on a hit, and the exact vertical sky gradient on a
//! miss.  `render` accumulates jittered samples for every pixel.
use vstd::prelude::*;

use crate::Hit;
use crate::Hittable;
use crate::Ray;
use crate::World;
use crate::ray_wf;
use crate::algebra::Vec3;
use crate::algebra::possible_unit_draw;
use crate::algebra::random_unit_vector;
use crate::algebra::s_len_sq;
use crate::algebra::s_unit;
use crate::algebra::vadd;
use crate::algebra::vsub;
use crate::algebra::vec_bounded;
use crate::algebra::vec_wf;
use crate::algebra::vmul;
use crate::camera::Camera;
use crate::camera::camera_spec;
use crate::camera::cast_ray_spec;
use crate::fixed::DMAX;
use crate::fixed::Fx;
use crate::fixed::LIM;
use crate::fixed::SCALE;
use crate::fixed::fadd;
use crate::fixed::fdiv;
use crate::fixed::fmul;
use crate::fixed::fsub;
use crate::fixed::fx_one;
use crate::image::Color;

verus! {

/// The sky on a miss: the vertical gradient from white at the bottom of
/// the viewport to sky blue at the top, keyed by the normalized direction.
pub open spec fn background_spec(r: Ray) -> Color {
    let unit_direction = s_unit(r.direction);
    let t = fmul(Fx { v: 500000 }, fadd(unit_direction.y, fx_one()));
    vadd(
        vmul(Vec3 { x: fx_one(), y: fx_one(), z: fx_one() }, fsub(fx_one(), t)),
        vmul(Vec3 { x: Fx { v: 500000 }, y: Fx { v: 700000 }, z: fx_one() }, t),
    )
}

/// A color whose channels all lie in `[0, m]` (raw grid steps).
pub open spec fn color_bounded(c: Color, m: int) -> bool {
    &&& 0 <= c.x.v <= m
    &&& 0 <= c.y.v <= m
    &&& 0 <= c.z.v <= m
}

/// Pure black: zero radiance.
pub open spec fn black() -> Color {
    Vec3 { x: Fx { v: 0 }, y: Fx { v: 0 }, z: Fx { v: 0 } }
}

/// A direction the tracer accepts: squared length rounding to at least
/// `min_sq`, components inside the grid's safe range.
pub open spec fn dir_ok(d: Vec3, min_sq: int) -> bool {
    &&& s_len_sq(d).v >= min_sq
    &&& vec_bounded(d, DMAX as int)
}

/// Every color `ray_color` can return for the given ray, scene and bounce
/// budget: black once the budget is spent; the exact sky gradient on a
/// miss; on a hit, half of a possible estimate of the diffuse bounce whose
/// direction is the hit normal plus some admissible unit draw, or black
/// when that scatter direction degenerates off the grid.
pub open spec fn possible_ray_color(ray: Ray, world: World, depth: int, c: Color) -> bool
    decreases depth,
{
    if depth <= 0 {
        c == black()
    } else {
        match world.spec_hit(ray, Fx { v: 0 }, Fx { v: LIM }) {
            Some(h) => exists|u: Vec3|
                #![trigger possible_unit_draw(u)]
                {
                    let direction = vsub(vadd(vadd(h.point, h.normal), u), h.point);
                    &&& possible_unit_draw(u)
                    &&& if dir_ok(direction, 1) {
                        exists|c2: Color|
                            #![auto]
                            possible_ray_color(Ray { origin: h.point, direction }, world, depth - 1, c2)
                                && c == vmul(c2, Fx { v: 500000 })
                    } else {
                        c == black()
                    }
                },
            None => c == background_spec(ray),
        }
    }
}

/// The mirror of a jittered viewport coordinate: `(k + jitter) / (extent - 1)`.
pub open spec fn jitter_coord(k: int, jitter: Fx, extent: int) -> Fx {
    fdiv(fadd(Fx { v: (k * SCALE) as i128 }, jitter), Fx { v: ((extent - 1) * SCALE) as i128 })
}

/// Every value one accumulated pixel can hold after `s` samples: the
/// fold-sum of `s` sample colors, each a possible integrator outcome for
/// the camera ray cast at this pixel's jittered coordinates.  A jittered
/// ray outside the grid's safe range contributes black; with the fixed
/// camera that never happens, since every cast direction has z exactly -1.
pub open spec fn possible_pixel(
    world: World,
    depth: int,
    x: int,
    y: int,
    w: int,
    h: int,
    s: int,
    c: Color,
) -> bool
    decreases s,
{
    if s <= 0 {
        c == black()
    } else {
        exists|ju: Fx, jv: Fx, prev: Color, sample: Color|
            #![trigger jitter_coord(x, ju, w), jitter_coord(y, jv, h), vadd(prev, sample)]
            {
                let ray = cast_ray_spec(
                    camera_spec(),
                    jitter_coord(x, ju, w),
                    jitter_coord(y, jv, h),
                );
                &&& 0 <= ju.v < SCALE
                &&& 0 <= jv.v < SCALE
                &&& (if dir_ok(ray.direction, SCALE as int) {
                    possible_ray_color(ray, world, depth, sample)
                } else {
                    sample == black()
                })
                &&& possible_pixel(world, depth, x, y, w, h, s - 1, prev)
                &&& c == vadd(prev, sample)
            }
    }
}

/// The sky gradient is a genuine color: every channel lies in `[0, 2]`,
/// because the normalized direction's y component cannot exceed two.
pub proof fn lemma_background_bounded(r: Ray)
    requires
        vec_bounded(r.direction, DMAX as int),
        s_len_sq(r.direction).v >= 1,
    ensures
        color_bounded(background_spec(r), 2 * (SCALE as int)),
{
    crate::algebra::lemma_unit_components_bounded(r.direction);
    let u = s_unit(r.direction);
    let uy = u.y.v as int;
    assert(crate::fixed::mag(uy) <= 2 * (SCALE as int));
    let wv = uy + (SCALE as int);
    assert(fadd(u.y, fx_one()).v == wv);
    crate::fixed::lemma_tdiv_err(500000 * wv, SCALE as int);
    let tq = crate::fixed::tdiv(500000 * wv, SCALE as int);
    assert(crate::fixed::mag(tq) <= 1500001) by (nonlinear_arith)
        requires
            crate::fixed::mag(tq * SCALE - 500000 * wv) < SCALE,
            -(SCALE as int) <= wv <= 3 * (SCALE as int),
            SCALE == 1000000,
            crate::fixed::mag(tq) == if tq >= 0 { tq } else { -tq },
            crate::fixed::mag(tq * SCALE - 500000 * wv) == if tq * SCALE - 500000 * wv >= 0 {
                tq * (SCALE as int) - 500000 * wv
            } else {
                -(tq * (SCALE as int) - 500000 * wv)
            },
    ;
    let t = fmul(Fx { v: 500000 }, fadd(u.y, fx_one()));
    assert(t.v == tq);
    crate::fixed::lemma_fmul_one(fsub(fx_one(), t));
    crate::fixed::lemma_fmul_one(t);
    // Red: white fades by t, sky blue contributes half of t.
    crate::fixed::lemma_tdiv_err(500000 * tq, SCALE as int);
    let a2 = crate::fixed::tdiv(500000 * tq, SCALE as int);
    assert(0 <= ((SCALE as int) - tq) + a2 <= 2 * (SCALE as int)) by (nonlinear_arith)
        requires
            crate::fixed::mag(a2 * SCALE - 500000 * tq) < SCALE,
            crate::fixed::mag(tq) <= 1500001,
            SCALE == 1000000,
            crate::fixed::mag(tq) == if tq >= 0 { tq } else { -tq },
            crate::fixed::mag(a2 * SCALE - 500000 * tq) == if a2 * SCALE - 500000 * tq >= 0 {
                a2 * (SCALE as int) - 500000 * tq
            } else {
                -(a2 * (SCALE as int) - 500000 * tq)
            },
    ;
    assert(fmul(Fx { v: 500000 }, t).v == a2);
    // Green: the same with seven tenths.
    crate::fixed::lemma_tdiv_err(700000 * tq, SCALE as int);
    let a3 = crate::fixed::tdiv(700000 * tq, SCALE as int);
    assert(0 <= ((SCALE as int) - tq) + a3 <= 2 * (SCALE as int)) by (nonlinear_arith)
        requires
            crate::fixed::mag(a3 * SCALE - 700000 * tq) < SCALE,
            crate::fixed::mag(tq) <= 1500001,
            SCALE == 1000000,
            crate::fixed::mag(tq) == if tq >= 0 { tq } else { -tq },
            crate::fixed::mag(a3 * SCALE - 700000 * tq) == if a3 * SCALE - 700000 * tq >= 0 {
                a3 * (SCALE as int) - 700000 * tq
            } else {
                -(a3 * (SCALE as int) - 700000 * tq)
            },
    ;
    assert(fmul(Fx { v: 700000 }, t).v == a3);
    // Blue: the contributions sum to exactly one.
}

/// For a ray of length at least one, the sky gradient stays within one
/// per-mille of the unit color range: the normalized direction's y
/// component is within `[-1.001, 1.001]`.
pub proof fn lemma_background_tight(r: Ray)
    requires
        vec_bounded(r.direction, DMAX as int),
        (SCALE as int) <= s_len_sq(r.direction).v,
    ensures
        color_bounded(background_spec(r), SCALE as int + 1000),
{
    crate::algebra::lemma_unit_components_tight(r.direction);
    let u = s_unit(r.direction);
    let uy = u.y.v as int;
    assert(crate::fixed::mag(uy) <= SCALE as int + 1000);
    let wv = uy + (SCALE as int);
    assert(fadd(u.y, fx_one()).v == wv);
    crate::fixed::lemma_tdiv_err(500000 * wv, SCALE as int);
    let tq = crate::fixed::tdiv(500000 * wv, SCALE as int);
    assert(-501 <= tq <= 1000501) by (nonlinear_arith)
        requires
            crate::fixed::mag(tq * SCALE - 500000 * wv) < SCALE,
            -1000 <= wv <= 2001000,
            SCALE == 1000000,
            crate::fixed::mag(tq * SCALE - 500000 * wv) == if tq * SCALE - 500000 * wv >= 0 {
                tq * (SCALE as int) - 500000 * wv
            } else {
                -(tq * (SCALE as int) - 500000 * wv)
            },
    ;
    let t = fmul(Fx { v: 500000 }, fadd(u.y, fx_one()));
    assert(t.v == tq);
    crate::fixed::lemma_fmul_one(fsub(fx_one(), t));
    crate::fixed::lemma_fmul_one(t);
    // Red: white fades by t, sky blue contributes half of t.
    crate::fixed::lemma_tdiv_err(500000 * tq, SCALE as int);
    let a2 = crate::fixed::tdiv(500000 * tq, SCALE as int);
    assert(0 <= ((SCALE as int) - tq) + a2 <= (SCALE as int) + 1000) by (nonlinear_arith)
        requires
            crate::fixed::mag(a2 * SCALE - 500000 * tq) < SCALE,
            -501 <= tq <= 1000501,
            SCALE == 1000000,
            crate::fixed::mag(a2 * SCALE - 500000 * tq) == if a2 * SCALE - 500000 * tq >= 0 {
                a2 * (SCALE as int) - 500000 * tq
            } else {
                -(a2 * (SCALE as int) - 500000 * tq)
            },
    ;
    assert(fmul(Fx { v: 500000 }, t).v == a2);
    // Green: the same with seven tenths.
    crate::fixed::lemma_tdiv_err(700000 * tq, SCALE as int);
    let a3 = crate::fixed::tdiv(700000 * tq, SCALE as int);
    assert(0 <= ((SCALE as int) - tq) + a3 <= (SCALE as int) + 1000) by (nonlinear_arith)
        requires
            crate::fixed::mag(a3 * SCALE - 700000 * tq) < SCALE,
            -501 <= tq <= 1000501,
            SCALE == 1000000,
            crate::fixed::mag(a3 * SCALE - 700000 * tq) == if a3 * SCALE - 700000 * tq >= 0 {
                a3 * (SCALE as int) - 700000 * tq
            } else {
                -(a3 * (SCALE as int) - 700000 * tq)
            },
    ;
    assert(fmul(Fx { v: 700000 }, t).v == a3);
    // Blue: the contributions sum to exactly one.
}

/// Halving a genuine color keeps every channel at most one: each channel
/// shrinks toward zero.
proof fn lemma_half_keeps_bounds(c: Color)
    requires
        color_bounded(c, 2 * (SCALE as int)),
    ensures
        color_bounded(vmul(c, Fx { v: 500000 }), SCALE as int),
{
    lemma_half_channel(c.x);
    lemma_half_channel(c.y);
    lemma_half_channel(c.z);
}

/// One channel of the halving.
proof fn lemma_half_channel(a: Fx)
    requires
        0 <= a.v <= 2 * (SCALE as int),
    ensures
        0 <= fmul(a, Fx { v: 500000 }).v <= SCALE as int,
{
    let p = a.v * 500000;
    assert(0 <= p <= 1000000000000) by (nonlinear_arith)
        requires
            0 <= a.v <= 2000000,
            p == a.v * 500000,
    ;
    vstd::arithmetic::div_mod::lemma_div_pos_is_pos(p, SCALE as int);
    vstd::arithmetic::div_mod::lemma_div_is_ordered(p, 1000000000000int, SCALE as int);
    assert(crate::fixed::tdiv(p, SCALE as int) == p / (SCALE as int));
}

/// Adding one more genuine sample to an accumulator of `s` samples keeps
/// every channel within `s + 1` full radiances (each with the per-mille
/// rounding allowance), far from saturation.
proof fn lemma_accumulate_bound(acc: Color, sample: Color, s: int, spp: int)
    requires
        0 <= s < spp,
        spp <= 4294967295,
        color_bounded(acc, ((SCALE as int) + 1000) * s),
        color_bounded(sample, (SCALE as int) + 1000),
    ensures
        color_bounded(vadd(acc, sample), ((SCALE as int) + 1000) * (s + 1)),
{
    assert(((SCALE as int) + 1000) * s + ((SCALE as int) + 1000) == ((SCALE as int) + 1000) * (s
        + 1)) by (nonlinear_arith);
    assert(((SCALE as int) + 1000) * (s + 1) <= 4300000000000000) by (nonlinear_arith)
        requires
            0 <= s,
            s + 1 <= spp <= 4294967295,
            SCALE == 1000000,
    ;
}

/// The radiance carried back along `ray`: black once the bounce budget is
/// spent, half the radiance of a diffuse bounce on a hit, and the sky
/// gradient on a miss.  A scatter direction that rounds to zero or leaves
/// the grid's safe range cannot be traced further and is treated as
/// absorbed.
///
/// Channels lie in `[0, 1]` up to a per-mille rounding allowance for rays
/// of length at least one (every camera ray and scene hit); a direction
/// shorter than one grid unit can round its normalization up to nearly
/// double, hence the looser unconditional bound of two.
pub fn ray_color(ray: &Ray, world: &World, depth: i32) -> (r: Color)
    requires
        world.wf(),
        ray_wf(*ray),
        s_len_sq(ray.direction).v >= 1,
        vec_bounded(ray.direction, DMAX as int),
    ensures
        vec_wf(r),
        color_bounded(r, 2 * (SCALE as int)),
        (SCALE as int) <= s_len_sq(ray.direction).v ==> color_bounded(r, SCALE as int + 1000),
        depth <= 0 ==> r.x.v == 0 && r.y.v == 0 && r.z.v == 0,
        (depth > 0 && world.spec_hit(*ray, Fx { v: 0 }, Fx { v: LIM }) is None) ==> r
            == background_spec(*ray),
        possible_ray_color(*ray, *world, depth as int, r),
    decreases depth,
{
    if depth <= 0 {
        return Vec3::zero();
    }

    let mut hit = Hit::default();
    if world.hit(ray, Fx::zero(), Fx::max_val(), &mut hit) {
        let rand_unit = random_unit_vector();
        let target = hit.point.add(hit.normal).add(rand_unit);
        let origin = hit.point;
        let direction = target.sub(origin);
        let lsd = direction.length_sqaured();
        let ghost h = world.spec_hit(*ray, Fx { v: 0 }, Fx { v: LIM })->Some_0;
        proof {
            assert(hit == h);
            assert(direction == vsub(vadd(vadd(h.point, h.normal), rand_unit), h.point));
        }
        if lsd.v >= 1 && direction.x.v >= -DMAX && direction.x.v <= DMAX && direction.y.v >= -DMAX
            && direction.y.v <= DMAX && direction.z.v >= -DMAX && direction.z.v <= DMAX {
            let scattered = Ray { origin, direction };
            let bounced = ray_color(&scattered, world, depth - 1);
            let halved = bounced.mul(Fx::from_raw(500000));
            proof {
                lemma_half_keeps_bounds(bounced);
                assert(dir_ok(direction, 1));
                assert(possible_ray_color(
                    Ray { origin: h.point, direction },
                    *world,
                    depth as int - 1,
                    bounced,
                ));
                assert(halved == vmul(bounced, Fx { v: 500000 }));
                assert(possible_ray_color(*ray, *world, depth as int, halved));
            }
            return halved;
        } else {
            proof {
                assert(!dir_ok(direction, 1));
                assert(possible_ray_color(*ray, *world, depth as int, black()));
            }
            return Vec3::zero();
        }
    }

    proof {
        lemma_background_bounded(*ray);
        if (SCALE as int) <= s_len_sq(ray.direction).v {
            lemma_background_tight(*ray);
        }
    }
    let unit_direction = ray.direction.unit_vector();
    let t = Fx::from_raw(500000).mul(unit_direction.y.add(Fx::one()));
    Vec3::one().mul(Fx::one().sub(t)).add(
        Vec3::new(Fx::from_raw(500000), Fx::from_raw(700000), Fx::one()).mul(t),
    )
}

/// Accumulate `samples_per_pixel` jittered estimates for every pixel of a
/// `image_width` by `image_height` raster, stored row-major with row 0 at
/// the bottom.  A jittered camera ray that leaves the grid's safe range
/// contributes nothing (with the fixed camera this never happens).
pub fn render(
    world: &World,
    cam: &Camera,
    image_width: usize,
    image_height: usize,
    samples_per_pixel: u32,
    max_depth: i32,
) -> (pixels: Vec<Color>)
    requires
        world.wf(),
        *cam == camera_spec(),
        2 <= image_width <= 10000,
        2 <= image_height <= 10000,
        1 <= samples_per_pixel,
    ensures
        pixels@.len() == image_width * image_height,
        forall|i: int| 0 <= i < pixels@.len() ==> vec_wf(#[trigger] pixels@[i]),
        forall|i: int|
            0 <= i < pixels@.len() ==> color_bounded(
                #[trigger] pixels@[i],
                ((SCALE as int) + 1000) * (samples_per_pixel as int),
            ),
        forall|i: int|
            0 <= i < pixels@.len() ==> possible_pixel(
                *world,
                max_depth as int,
                i % (image_width as int),
                i / (image_width as int),
                image_width as int,
                image_height as int,
                samples_per_pixel as int,
                #[trigger] pixels@[i],
            ),
{
    let mut pixels: Vec<Color> = Vec::new();
    let mut y: usize = 0;
    while y < image_height
        invariant
            0 <= y <= image_height,
            2 <= image_width <= 10000,
            2 <= image_height <= 10000,
            world.wf(),
            *cam == camera_spec(),
            1 <= samples_per_pixel,
            pixels@.len() == y * image_width,
            forall|i: int| 0 <= i < pixels@.len() ==> vec_wf(#[trigger] pixels@[i]),
            forall|i: int|
                0 <= i < pixels@.len() ==> color_bounded(
                    #[trigger] pixels@[i],
                    ((SCALE as int) + 1000) * (samples_per_pixel as int),
                ),
            forall|i: int|
                0 <= i < pixels@.len() ==> possible_pixel(
                    *world,
                    max_depth as int,
                    i % (image_width as int),
                    i / (image_width as int),
                    image_width as int,
                    image_height as int,
                    samples_per_pixel as int,
                    #[trigger] pixels@[i],
                ),
        decreases image_height - y,
    {
        let mut x: usize = 0;
        while x < image_width
            invariant
                0 <= x <= image_width,
                0 <= y < image_height,
                2 <= image_width <= 10000,
                2 <= image_height <= 10000,
                world.wf(),
                *cam == camera_spec(),
                1 <= samples_per_pixel,
                pixels@.len() == y * image_width + x,
                forall|i: int| 0 <= i < pixels@.len() ==> vec_wf(#[trigger] pixels@[i]),
                forall|i: int|
                    0 <= i < pixels@.len() ==> color_bounded(
                        #[trigger] pixels@[i],
                        ((SCALE as int) + 1000) * (samples_per_pixel as int),
                    ),
                forall|i: int|
                    0 <= i < pixels@.len() ==> possible_pixel(
                        *world,
                        max_depth as int,
                        i % (image_width as int),
                        i / (image_width as int),
                        image_width as int,
                        image_height as int,
                        samples_per_pixel as int,
                        #[trigger] pixels@[i],
                    ),
            decreases image_width - x,
        {
            let mut pixel_color = Vec3::zero();
            let mut s: u32 = 0;
            while s < samples_per_pixel
                invariant
                    0 <= s <= samples_per_pixel,
                    0 <= x < image_width,
                    0 <= y < image_height,
                    2 <= image_width <= 10000,
                    2 <= image_height <= 10000,
                    world.wf(),
                    *cam == camera_spec(),
                    1 <= samples_per_pixel,
                    vec_wf(pixel_color),
                    color_bounded(pixel_color, ((SCALE as int) + 1000) * (s as int)),
                    possible_pixel(
                        *world,
                        max_depth as int,
                        x as int,
                        y as int,
                        image_width as int,
                        image_height as int,
                        s as int,
                        pixel_color,
                    ),
                decreases samples_per_pixel - s,
            {
                let ju = crate::random();
                let jv = crate::random();
                let u = Fx::from_int(x as i64).add(ju).div(Fx::from_int((image_width - 1) as i64));
                let v = Fx::from_int(y as i64).add(jv).div(
                    Fx::from_int((image_height - 1) as i64),
                );
                proof {
                    assert(u == jitter_coord(x as int, ju, image_width as int));
                    assert(v == jitter_coord(y as int, jv, image_height as int));
                }

                let ray = cam.cast_ray(u, v);
                let ghost prev = pixel_color;
                let lsd = ray.direction.length_sqaured();
                if lsd.v >= SCALE && ray.direction.x.v >= -DMAX && ray.direction.x.v <= DMAX
                    && ray.direction.y.v >= -DMAX && ray.direction.y.v <= DMAX
                    && ray.direction.z.v >= -DMAX && ray.direction.z.v <= DMAX {
                    let sample = ray_color(&ray, world, max_depth);
                    proof {
                        lemma_accumulate_bound(pixel_color, sample, s as int, samples_per_pixel as int);
                    }
                    pixel_color = pixel_color.add(sample);
                    proof {
                        assert(dir_ok(ray.direction, SCALE as int));
                        assert(possible_ray_color(ray, *world, max_depth as int, sample));
                        assert(pixel_color == vadd(prev, sample));
                        assert(possible_pixel(
                            *world,
                            max_depth as int,
                            x as int,
                            y as int,
                            image_width as int,
                            image_height as int,
                            s as int + 1,
                            pixel_color,
                        ));
                    }
                } else {
                    proof {
                        assert(!dir_ok(ray.direction, SCALE as int));
                        assert(vadd(prev, black()) == prev);
                        assert(possible_pixel(
                            *world,
                            max_depth as int,
                            x as int,
                            y as int,
                            image_width as int,
                            image_height as int,
                            s as int + 1,
                            pixel_color,
                        ));
                    }
                }
                proof {
                    assert(((SCALE as int) + 1000) * (s as int) <= ((SCALE as int) + 1000) * (
                    s as int + 1)) by (nonlinear_arith)
                        requires
                            0 <= s as int,
                            SCALE == 1000000,
                    ;
                }
                s = s + 1;
            }
            proof {
                let n = (y as int) * (image_width as int) + (x as int);
                vstd::arithmetic::div_mod::lemma_fundamental_div_mod_converse(
                    n,
                    image_width as int,
                    y as int,
                    x as int,
                );
                assert(n == (y as int) * (image_width as int) + (x as int));
            }
            pixels.push(pixel_color);
            x = x + 1;
        }
        proof {
            assert((y as int) * (image_width as int) + (image_width as int) == ((y as int) + 1) * (
            image_width as int)) by (nonlinear_arith);
        }
        y = y + 1;
    }
    proof {
        assert((image_height as int) * (image_width as int) == (image_width as int) * (
        image_height as int)) by (nonlinear_arith);
    }
    pixels
}

} // verus!
