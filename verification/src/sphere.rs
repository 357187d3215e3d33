//! The sole concrete primitive: a sphere, intersected by the quadratic
//! formula.
//!
//! `sphere_hit_spec` states the whole intersection computation exactly on the
//! grid: coefficients, discriminant test, root selection inside the parameter
//! window, and the orientation of the stored normal against the incoming ray.
use vstd::prelude::*;

use crate::Hit;
use crate::Hittable;
use crate::Point;
use crate::Ray;
use crate::ray_at_spec;
use crate::algebra::Vec3;
use crate::algebra::dot;
use crate::algebra::s_len_sq;
use crate::algebra::sdot;
use crate::algebra::vdiv;
use crate::algebra::vec_wf;
use crate::algebra::vmul;
use crate::algebra::vsub;
use crate::fixed::Fx;
use crate::fixed::SCALE;
use crate::fixed::fadd;
use crate::fixed::fdiv;
use crate::fixed::fmul;
use crate::fixed::fneg;
use crate::fixed::fsqrt;
use crate::fixed::fsub;
use crate::fixed::fx_wf;

verus! {

/// A sphere, immutable after construction.
#[derive(Clone, Copy, PartialEq, Eq, Structural, Debug)]
pub struct Sphere {
    pub center: Point,
    pub radius: Fx,
}

impl Sphere {
    /// The sphere with the given center and radius.
    pub fn new(center: Point, radius: Fx) -> (r: Sphere)
        ensures
            r == (Sphere { center, radius }),
    {
        Sphere { center, radius }
    }
}

/// The exact intersection result of a ray and a sphere on the grid:
/// quadratic coefficients, discriminant test, nearest acceptable root,
/// and the hit record with the normal oriented against the ray.
pub open spec fn sphere_hit_spec(s: Sphere, ray: Ray, t_min: Fx, t_max: Fx) -> Option<Hit> {
    let oc = vsub(ray.origin, s.center);
    let a = s_len_sq(ray.direction);
    let half_b = sdot(ray.direction, oc);
    let c = fsub(sdot(oc, oc), fmul(s.radius, s.radius));
    let disc = fsub(fmul(half_b, half_b), fmul(a, c));
    if disc.v < 0 {
        None
    } else {
        let sqrtd = fsqrt(disc);
        let root1 = fdiv(fsub(fneg(half_b), sqrtd), a);
        let root = if root1.v < t_min.v || root1.v > t_max.v {
            fdiv(fadd(fneg(half_b), sqrtd), a)
        } else {
            root1
        };
        if root.v < t_min.v || root.v > t_max.v {
            None
        } else {
            let point = ray_at_spec(ray, root);
            let outward = vdiv(vsub(point, s.center), s.radius);
            let front = sdot(ray.direction, outward).v < 0;
            let normal = if front {
                outward
            } else {
                vmul(outward, Fx { v: (-SCALE) as i128 })
            };
            Some(Hit { point, normal, t: root, front_face: front })
        }
    }
}

/// Dotting against a vector scaled by minus one exactly negates the dot
/// product: each rounded product and each saturated sum flips sign.
proof fn lemma_sdot_with_negated(a: Vec3, b: Vec3)
    requires
        vec_wf(a),
        vec_wf(b),
    ensures
        sdot(a, vmul(b, Fx { v: (-SCALE) as i128 })).v == -sdot(a, b).v,
{
    crate::fixed::lemma_fmul_neg_one(b.x);
    crate::fixed::lemma_fmul_neg_one(b.y);
    crate::fixed::lemma_fmul_neg_one(b.z);
    let nb = vmul(b, Fx { v: (-SCALE) as i128 });
    assert(nb.x.v == -b.x.v && nb.y.v == -b.y.v && nb.z.v == -b.z.v);
    assert(a.x.v * (nb.x.v as int) == -(a.x.v * b.x.v)) by (nonlinear_arith)
        requires
            nb.x.v == -b.x.v,
    ;
    assert(a.y.v * (nb.y.v as int) == -(a.y.v * b.y.v)) by (nonlinear_arith)
        requires
            nb.y.v == -b.y.v,
    ;
    assert(a.z.v * (nb.z.v as int) == -(a.z.v * b.z.v)) by (nonlinear_arith)
        requires
            nb.z.v == -b.z.v,
    ;
    assert(crate::fixed::tdiv(-(a.x.v * b.x.v), SCALE as int) == -crate::fixed::tdiv(
        a.x.v * b.x.v,
        SCALE as int,
    ));
    assert(crate::fixed::tdiv(-(a.y.v * b.y.v), SCALE as int) == -crate::fixed::tdiv(
        a.y.v * b.y.v,
        SCALE as int,
    ));
    assert(crate::fixed::tdiv(-(a.z.v * b.z.v), SCALE as int) == -crate::fixed::tdiv(
        a.z.v * b.z.v,
        SCALE as int,
    ));
    let c0 = fmul(a.x, b.x);
    let c1 = fmul(a.y, b.y);
    let c2 = fmul(a.z, b.z);
    assert(fmul(a.x, nb.x).v == -c0.v);
    assert(fmul(a.y, nb.y).v == -c1.v);
    assert(fmul(a.z, nb.z).v == -c2.v);
    assert(fadd(fmul(a.x, nb.x), fmul(a.y, nb.y)).v == -fadd(c0, c1).v);
    assert(fadd(fadd(fmul(a.x, nb.x), fmul(a.y, nb.y)), fmul(a.z, nb.z)).v == -fadd(
        fadd(c0, c1),
        c2,
    ).v);
}

impl Hittable for Sphere {
    /// Center and radius are on the grid and the radius is nonzero.
    open spec fn wf(&self) -> bool {
        &&& vec_wf(self.center)
        &&& fx_wf(self.radius)
        &&& self.radius.v != 0
    }

    open spec fn spec_hit(&self, ray: Ray, t_min: Fx, t_max: Fx) -> Option<Hit> {
        sphere_hit_spec(*self, ray, t_min, t_max)
    }

    fn hit(&self, ray: &Ray, t_min: Fx, t_max: Fx, out: &mut Hit) -> (found: bool) {
        let oc = ray.origin.sub(self.center);
        let a = ray.direction.length_sqaured();
        let half_b = dot(ray.direction, oc);
        let c = dot(oc, oc).sub(self.radius.mul(self.radius));

        let discriminant = half_b.mul(half_b).sub(a.mul(c));
        if discriminant.lt(Fx::zero()) {
            return false;
        }
        let sqrtd = discriminant.sqrt();

        // Nearest root in the range [t_min, t_max]
        let mut root = half_b.neg().sub(sqrtd).div(a);
        if root.lt(t_min) || t_max.lt(root) {
            root = half_b.neg().add(sqrtd).div(a);
        }

        if root.lt(t_min) || t_max.lt(root) {
            return false;
        }

        out.t = root;
        out.point = ray.at(root);

        let outward_normal = out.point.sub(self.center).div(self.radius);
        out.front_face = dot(ray.direction, outward_normal).lt(Fx::zero());
        out.normal = if out.front_face {
            outward_normal
        } else {
            outward_normal.mul(Fx::from_int(-1))
        };
        proof {
            if !out.front_face {
                lemma_sdot_with_negated(ray.direction, outward_normal);
            }
        }

        true
    }
}

} // verus!
