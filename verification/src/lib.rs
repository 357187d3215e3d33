//! A small Monte-Carlo path tracer over exact fixed-point arithmetic.
//!
//! Real-valued quantities (coordinates, colors, ray parameters) are held on a
//! fixed grid of millionths, so every arithmetic step has an exact, provable
//! result.  The tracer casts jittered camera rays through a scene of spheres,
//! bounces them diffusely, and encodes the averaged colors as a plain-text
//! pixel map.
use vstd::prelude::*;

pub mod algebra;
pub mod camera;
pub mod fixed;
pub mod image;
pub mod laws;
pub mod render;
pub mod sphere;

use crate::sphere::Sphere;
use crate::sphere::sphere_hit_spec;
use crate::algebra::Vec3;
use crate::algebra::s_len_sq;
use crate::algebra::vadd;
use crate::algebra::vmul;
use crate::algebra::vec_wf;
use crate::fixed::Fx;
use crate::fixed::SCALE;
use crate::fixed::fadd;
use crate::fixed::fmul;
use crate::fixed::fsub;
use crate::fixed::fx_wf;
use crate::fixed::tdiv;

verus! {

/// A location in space: the same triple as a free vector.
pub type Point = Vec3;

/// A parametric half-line `origin + t * direction`.
#[derive(Clone, Copy, PartialEq, Eq, Structural, Debug)]
pub struct Ray {
    pub origin: Point,
    pub direction: Vec3,
}

/// The point the ray reaches at parameter `t`.
pub open spec fn ray_at_spec(r: Ray, t: Fx) -> Point {
    vadd(r.origin, vmul(r.direction, t))
}

/// Both defining vectors of the ray are on the grid.
pub open spec fn ray_wf(r: Ray) -> bool {
    &&& vec_wf(r.origin)
    &&& vec_wf(r.direction)
}

impl Ray {
    /// A ray from `origin` along `direction`.
    pub fn new(origin: Point, direction: Vec3) -> (r: Ray)
        ensures
            r == (Ray { origin, direction }),
    {
        Ray { origin, direction }
    }

    /// The point at parameter `t`.
    pub fn at(&self, t: Fx) -> (p: Point)
        requires
            ray_wf(*self),
            fx_wf(t),
        ensures
            p == ray_at_spec(*self, t),
            vec_wf(p),
    {
        self.origin.add(self.direction.mul(t))
    }
}

/// The nearest valid intersection found so far during a scene query.
#[derive(Clone, Copy, PartialEq, Eq, Structural, Debug)]
pub struct Hit {
    pub point: Point,
    pub normal: Vec3,
    pub t: Fx,
    pub front_face: bool,
}

/// All stored vectors and the parameter are on the grid.
pub open spec fn hit_wf(h: Hit) -> bool {
    &&& vec_wf(h.point)
    &&& vec_wf(h.normal)
    &&& fx_wf(h.t)
}

impl Default for Hit {
    /// The "no hit yet" placeholder: all zero, not a valid hit.
    fn default() -> (r: Hit)
        ensures
            r.point.x.v == 0 && r.point.y.v == 0 && r.point.z.v == 0,
            r.normal.x.v == 0 && r.normal.y.v == 0 && r.normal.z.v == 0,
            r.t.v == 0,
            !r.front_face,
            hit_wf(r),
    {
        Hit {
            point: Vec3::zero(),
            normal: Vec3::zero(),
            t: Fx::zero(),
            front_face: false,
        }
    }
}

/// The capability every intersectable primitive offers: answer the nearest
/// intersection with parameter inside `[t_min, t_max]`, exactly as the
/// primitive's own `spec_hit` describes it.
pub trait Hittable {
    /// The primitive's well-formedness: what its intersection contract relies on.
    spec fn wf(&self) -> bool;

    /// The exact intersection result for the given ray and parameter window.
    spec fn spec_hit(&self, ray: Ray, t_min: Fx, t_max: Fx) -> Option<Hit>;

    /// Write the nearest intersection with parameter in `[t_min, t_max]` into
    /// `out` and report whether one exists; on a miss, `out` is untouched.
    /// The stored normal always opposes the incoming ray, so shading can
    /// rely on the orientation without re-checking it.
    fn hit(&self, ray: &Ray, t_min: Fx, t_max: Fx, out: &mut Hit) -> (found: bool)
        requires
            self.wf(),
            ray_wf(*ray),
            s_len_sq(ray.direction).v >= 1,
            fx_wf(t_min),
            fx_wf(t_max),
        ensures
            (match self.spec_hit(*ray, t_min, t_max) {
                Some(h) => found && *final(out) == h && hit_wf(h) && t_min.v <= h.t.v <= t_max.v
                    && crate::algebra::sdot(ray.direction, h.normal).v <= 0,
                None => !found && *final(out) == *old(out),
            }),
    ;
}

/// The aggregate scene: every primitive it owns, queried in order.
pub struct World {
    pub objects: Vec<Sphere>,
}

impl Default for World {
    /// An empty scene.
    fn default() -> (r: World)
        ensures
            r.objects@ =~= Seq::<Sphere>::empty(),
    {
        World { objects: Vec::new() }
    }
}

/// The linear scan over the primitives: each accepted hit narrows the upper
/// bound of the search window, so the final record is the nearest one.
pub open spec fn world_scan(
    objs: Seq<Sphere>,
    ray: Ray,
    t_min: Fx,
    closest: Fx,
    cur: Option<Hit>,
) -> Option<Hit>
    decreases objs.len(),
{
    if objs.len() == 0 {
        cur
    } else {
        match sphere_hit_spec(objs[0], ray, t_min, closest) {
            Some(h) => world_scan(objs.drop_first(), ray, t_min, h.t, Some(h)),
            None => world_scan(objs.drop_first(), ray, t_min, closest, cur),
        }
    }
}

impl Hittable for World {
    /// Every owned primitive is well formed.
    open spec fn wf(&self) -> bool {
        forall|i: int| 0 <= i < self.objects@.len() ==> (#[trigger] self.objects@[i]).wf()
    }

    open spec fn spec_hit(&self, ray: Ray, t_min: Fx, t_max: Fx) -> Option<Hit> {
        world_scan(self.objects@, ray, t_min, t_max, None)
    }

    fn hit(&self, ray: &Ray, t_min: Fx, t_max: Fx, out: &mut Hit) -> (found: bool) {
        let mut found_hit = false;
        let mut closest_hit = t_max;
        let mut hit = Hit::default();

        let ghost all = self.objects@;
        let ghost goal = world_scan(all, *ray, t_min, t_max, None);
        proof {
            assert(all.skip(0) =~= all);
        }
        let mut i: usize = 0;
        while i < self.objects.len()
            invariant
                0 <= i <= all.len(),
                all == self.objects@,
                self.wf(),
                ray_wf(*ray),
                s_len_sq(ray.direction).v >= 1,
                fx_wf(t_min),
                fx_wf(t_max),
                fx_wf(closest_hit),
                hit_wf(hit),
                closest_hit.v <= t_max.v,
                !found_hit ==> closest_hit == t_max,
                found_hit ==> hit.t == closest_hit && t_min.v <= hit.t.v,
                found_hit ==> crate::algebra::sdot(ray.direction, hit.normal).v <= 0,
                found_hit ==> *out == hit,
                !found_hit ==> *out == *old(out),
                goal == world_scan(
                    all.skip(i as int),
                    *ray,
                    t_min,
                    closest_hit,
                    if found_hit {
                        Some(hit)
                    } else {
                        None
                    },
                ),
            decreases all.len() - i,
        {
            proof {
                assert(all.skip(i as int)[0] == all[i as int]);
                assert(all.skip(i as int).drop_first() =~= all.skip(i as int + 1));
            }
            let obj = &self.objects[i];
            if obj.hit(ray, t_min, closest_hit, &mut hit) {
                found_hit = true;
                closest_hit = hit.t;
                *out = hit;
            }
            i = i + 1;
        }
        proof {
            assert(all.skip(all.len() as int) =~= Seq::<Sphere>::empty());
        }
        found_hit
    }
}

/// The value of `clamp`: `x` pressed into `[min, max]`.
pub open spec fn clamp_spec(x: Fx, min: Fx, max: Fx) -> Fx {
    if x.v < min.v {
        min
    } else if x.v > max.v {
        max
    } else {
        x
    }
}

/// Press `x` into the interval `[min, max]`.
pub fn clamp(x: Fx, min: Fx, max: Fx) -> (r: Fx)
    ensures
        r == clamp_spec(x, min, max),
{
    if x.lt(min) {
        min
    } else if max.lt(x) {
        max
    } else {
        x
    }
}

/// Relies on `fastrand::u64`: returns a draw from the half-open range
/// `0..n` handed to it, which is nonempty because `n > 0`.
#[verifier::external_body]
fn random_u64_below(n: u64) -> (r: u64)
    requires
        n > 0,
    ensures
        r < n,
{
    fastrand::u64(0..n)
}

/// A uniformly drawn grid value in `[0, 1)`.
pub fn random() -> (r: Fx)
    ensures
        0 <= r.v < SCALE,
        fx_wf(r),
{
    let u = random_u64_below(1000000);
    Fx { v: u as i128 }
}

/// A uniformly drawn grid value in `[min, max)`: `min + (max - min) * random()`.
pub fn random_range(min: Fx, max: Fx) -> (r: Fx)
    requires
        fx_wf(min),
        fx_wf(max),
    ensures
        exists|j: i128|
            0 <= j < SCALE && r == fadd(min, #[trigger] fmul(fsub(max, min), Fx { v: j })),
        fx_wf(r),
        min.v < max.v ==> min.v <= r.v < max.v,
{
    let j = random();
    let r = min.add(max.sub(min).mul(j));
    proof {
        assert(r == fadd(min, fmul(fsub(max, min), Fx { v: j.v })));
        if min.v < max.v {
            let d = fsub(max, min).v as int;
            assert(1 <= d <= max.v - min.v);
            let p = d * (j.v as int);
            assert(0 <= p <= d * (SCALE - 1)) by (nonlinear_arith)
                requires
                    0 <= j.v < SCALE,
                    d >= 1,
                    p == d * (j.v as int),
            ;
            let q = tdiv(p, SCALE as int);
            assert(q == p / (SCALE as int));
            vstd::arithmetic::div_mod::lemma_div_pos_is_pos(p, SCALE as int);
            vstd::arithmetic::div_mod::lemma_fundamental_div_mod(p, SCALE as int);
            assert(q < d) by (nonlinear_arith)
                requires
                    p == (SCALE as int) * q + (p % (SCALE as int)),
                    p % (SCALE as int) >= 0,
                    p <= d * (SCALE - 1),
                    SCALE == 1000000,
                    d >= 1,
            ;
            assert(fmul(fsub(max, min), Fx { v: j.v }).v == q);
            assert(min.v <= r.v < max.v);
        }
    }
    r
}

} // verus!
