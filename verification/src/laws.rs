//! The library's general laws, proved once and for all.
//!
//! The vector laws hold exactly of the mathematical products before they are
//! rounded onto the grid (`dot_exact`, `cross_exact_*`), and exactly of the
//! rounded operations wherever rounding cannot disturb them (symmetry,
//! antisymmetry).  The scene laws show that the narrowing scan of `World`
//! really returns the geometrically nearest hit whatever the insertion
//! order, and the encoder law that a full-radiance accumulator encodes as
//! the maximum channel value.
use vstd::prelude::*;

use crate::Ray;
use crate::algebra::Vec3;
use crate::algebra::scross;
use crate::algebra::sdot;
use crate::algebra::s_len_sq;
use crate::algebra::vadd;
use crate::algebra::vec_bounded;
use crate::algebra::vneg;
use crate::fixed::Fx;
use crate::fixed::LIM;
use crate::fixed::SCALE;
use crate::fixed::lemma_clip_monotone;
use crate::fixed::lemma_sqrt_floor_exists;
use crate::fixed::lemma_tdiv_err;
use crate::fixed::lemma_tdiv_monotone;
use crate::fixed::mag;
use crate::fixed::tdiv;
use crate::image::channel_spec;
use crate::sphere::Sphere;
use crate::sphere::sphere_hit_spec;
use crate::world_scan;

verus! {

/// The exact (unrounded) dot product of the raw grid values.
pub open spec fn dot_exact(a: Vec3, b: Vec3) -> int {
    a.x.v * b.x.v + a.y.v * b.y.v + a.z.v * b.z.v
}

/// The exact (unrounded) components of the cross product.
pub open spec fn cross_exact_x(a: Vec3, b: Vec3) -> int {
    a.y.v * b.z.v - b.y.v * a.z.v
}

pub open spec fn cross_exact_y(a: Vec3, b: Vec3) -> int {
    b.x.v * a.z.v - a.x.v * b.z.v
}

pub open spec fn cross_exact_z(a: Vec3, b: Vec3) -> int {
    a.x.v * b.y.v - b.x.v * a.y.v
}

/// The rounded dot product is symmetric, exactly.
pub proof fn lemma_dot_symmetric(a: Vec3, b: Vec3)
    ensures
        sdot(a, b) == sdot(b, a),
{
    assert(a.x.v * b.x.v == b.x.v * a.x.v) by (nonlinear_arith);
    assert(a.y.v * b.y.v == b.y.v * a.y.v) by (nonlinear_arith);
    assert(a.z.v * b.z.v == b.z.v * a.z.v) by (nonlinear_arith);
}

/// The exact dot product is additive in its first argument: rounding aside,
/// the dot of a sum is the sum of the dots.
pub proof fn lemma_dot_exact_additive(a: Vec3, b: Vec3, c: Vec3)
    requires
        mag(a.x.v + b.x.v) <= LIM as int,
        mag(a.y.v + b.y.v) <= LIM as int,
        mag(a.z.v + b.z.v) <= LIM as int,
    ensures
        dot_exact(vadd(a, b), c) == dot_exact(a, c) + dot_exact(b, c),
{
    assert((a.x.v + b.x.v) * c.x.v == a.x.v * c.x.v + b.x.v * c.x.v) by (nonlinear_arith);
    assert((a.y.v + b.y.v) * c.y.v == a.y.v * c.y.v + b.y.v * c.y.v) by (nonlinear_arith);
    assert((a.z.v + b.z.v) * c.z.v == a.z.v * c.z.v + b.z.v * c.z.v) by (nonlinear_arith);
}

/// The exact dot product is homogeneous: scaling one argument by any
/// integer factor scales the result by that factor.
pub proof fn lemma_dot_exact_homogeneous(a: Vec3, b: Vec3, k: int)
    ensures
        (k * a.x.v) * b.x.v + (k * a.y.v) * b.y.v + (k * a.z.v) * b.z.v == k * dot_exact(a, b),
{
    assert((k * a.x.v) * b.x.v == k * (a.x.v * b.x.v)) by (nonlinear_arith);
    assert((k * a.y.v) * b.y.v == k * (a.y.v * b.y.v)) by (nonlinear_arith);
    assert((k * a.z.v) * b.z.v == k * (a.z.v * b.z.v)) by (nonlinear_arith);
    assert(k * (a.x.v * b.x.v) + k * (a.y.v * b.y.v) + k * (a.z.v * b.z.v) == k * (
    a.x.v * b.x.v + a.y.v * b.y.v + a.z.v * b.z.v)) by (nonlinear_arith);
}

/// The rounded dot product differs from the exact one by less than three
/// grid steps (one rounding per component product), for vectors inside the
/// saturation-free range.
pub proof fn lemma_dot_close_to_exact(a: Vec3, b: Vec3)
    requires
        vec_bounded(a, 1099511627776),
        vec_bounded(b, 1099511627776),
    ensures
        mag(sdot(a, b).v * SCALE - dot_exact(a, b)) < 3 * SCALE,
{
    let px = a.x.v * b.x.v;
    let py = a.y.v * b.y.v;
    let pz = a.z.v * b.z.v;
    assert(mag(px) <= 1099511627776 * 1099511627776 && mag(py) <= 1099511627776 * 1099511627776
        && mag(pz) <= 1099511627776 * 1099511627776) by (nonlinear_arith)
        requires
            mag(a.x.v as int) <= 1099511627776,
            mag(b.x.v as int) <= 1099511627776,
            mag(a.y.v as int) <= 1099511627776,
            mag(b.y.v as int) <= 1099511627776,
            mag(a.z.v as int) <= 1099511627776,
            mag(b.z.v as int) <= 1099511627776,
            px == a.x.v * b.x.v,
            py == a.y.v * b.y.v,
            pz == a.z.v * b.z.v,
            mag(px) == if px >= 0 { px } else { -px },
            mag(py) == if py >= 0 { py } else { -py },
            mag(pz) == if pz >= 0 { pz } else { -pz },
            mag(a.x.v as int) == if a.x.v >= 0 { a.x.v as int } else { -(a.x.v as int) },
            mag(b.x.v as int) == if b.x.v >= 0 { b.x.v as int } else { -(b.x.v as int) },
            mag(a.y.v as int) == if a.y.v >= 0 { a.y.v as int } else { -(a.y.v as int) },
            mag(b.y.v as int) == if b.y.v >= 0 { b.y.v as int } else { -(b.y.v as int) },
            mag(a.z.v as int) == if a.z.v >= 0 { a.z.v as int } else { -(a.z.v as int) },
            mag(b.z.v as int) == if b.z.v >= 0 { b.z.v as int } else { -(b.z.v as int) },
    ;
    lemma_tdiv_err(px, SCALE as int);
    lemma_tdiv_err(py, SCALE as int);
    lemma_tdiv_err(pz, SCALE as int);
    let qx = tdiv(px, SCALE as int);
    let qy = tdiv(py, SCALE as int);
    let qz = tdiv(pz, SCALE as int);
    assert(mag(qx) * (SCALE as int) <= mag(px) + SCALE) by (nonlinear_arith)
        requires
            mag(qx * SCALE - px) < SCALE,
            mag(qx) == if qx >= 0 { qx } else { -qx },
            mag(px) == if px >= 0 { px } else { -px },
            SCALE == 1000000,
    ;
    assert(mag(qy) * (SCALE as int) <= mag(py) + SCALE) by (nonlinear_arith)
        requires
            mag(qy * SCALE - py) < SCALE,
            mag(qy) == if qy >= 0 { qy } else { -qy },
            mag(py) == if py >= 0 { py } else { -py },
            SCALE == 1000000,
    ;
    assert(mag(qz) * (SCALE as int) <= mag(pz) + SCALE) by (nonlinear_arith)
        requires
            mag(qz * SCALE - pz) < SCALE,
            mag(qz) == if qz >= 0 { qz } else { -qz },
            mag(pz) == if pz >= 0 { pz } else { -pz },
            SCALE == 1000000,
    ;
    assert(mag(qx) <= 1250000000000000000 && mag(qy) <= 1250000000000000000 && mag(qz)
        <= 1250000000000000000) by (nonlinear_arith)
        requires
            mag(qx) * (SCALE as int) <= 1099511627776 * 1099511627776 + SCALE,
            mag(qy) * (SCALE as int) <= 1099511627776 * 1099511627776 + SCALE,
            mag(qz) * (SCALE as int) <= 1099511627776 * 1099511627776 + SCALE,
            mag(qx) >= 0,
            mag(qy) >= 0,
            mag(qz) >= 0,
            SCALE == 1000000,
    ;
}

/// The rounded dot product itself is additive up to rounding: the dot of a
/// sum differs from the sum of the dots by less than nine grid steps (three
/// roundings in each of the three dot products).
pub proof fn lemma_dot_rounded_additive(a: Vec3, b: Vec3, c: Vec3)
    requires
        vec_bounded(a, 549755813888),
        vec_bounded(b, 549755813888),
        vec_bounded(c, 1099511627776),
    ensures
        mag(sdot(vadd(a, b), c).v - sdot(a, c).v - sdot(b, c).v) < 9,
{
    let ab = vadd(a, b);
    assert(ab.x.v == a.x.v + b.x.v && ab.y.v == a.y.v + b.y.v && ab.z.v == a.z.v + b.z.v);
    assert(vec_bounded(ab, 1099511627776));
    lemma_dot_close_to_exact(ab, c);
    lemma_dot_close_to_exact(a, c);
    lemma_dot_close_to_exact(b, c);
    lemma_dot_exact_additive(a, b, c);
    let d = sdot(ab, c).v - sdot(a, c).v - sdot(b, c).v;
    assert(mag(d * SCALE) < 9 * SCALE);
    assert(mag(d) < 9) by (nonlinear_arith)
        requires
            mag(d * SCALE) < 9 * SCALE,
            SCALE == 1000000,
            mag(d) == if d >= 0 { d } else { -d },
            mag(d * SCALE) == if d * SCALE >= 0 {
                d * (SCALE as int)
            } else {
                -(d * (SCALE as int))
            },
    ;
}

/// Dividing by any nonzero scalar and scaling back returns within
/// `|s|/SCALE + |x|*|s|/SCALE^2 + 1` grid steps of the original component:
/// one rounding for the reciprocal, one per product.  This is the component
/// form of the vector law, since vector division scales by the reciprocal.
pub proof fn lemma_div_then_mul_close(x: Fx, s: Fx)
    requires
        mag(x.v as int) <= 1099511627776,
        1 <= mag(s.v as int) <= 1099511627776,
    ensures
        mag(
            crate::fixed::fmul(crate::fixed::fmul(x, crate::fixed::fdiv(crate::fixed::fx_one(), s)), s).v
                - x.v,
        ) * (SCALE as int) * (SCALE as int) < (SCALE as int) * (SCALE as int) + mag(s.v as int) * (
        SCALE as int) + mag(x.v as int) * mag(s.v as int),
{
    if s.v >= 1 {
        lemma_div_then_mul_close_positive(x, s);
    } else {
        let sp = Fx { v: (-s.v) as i128 };
        lemma_div_then_mul_close_positive(x, sp);
        // The whole chain is symmetric under negating the scalar: the
        // reciprocal negates, the divided component negates, and scaling
        // back by the negated scalar cancels both signs.
        let rn = crate::fixed::fdiv(crate::fixed::fx_one(), s);
        let rp = crate::fixed::fdiv(crate::fixed::fx_one(), sp);
        assert((SCALE as int) * (SCALE as int) == 1000000000000) by (nonlinear_arith)
            requires
                SCALE == 1000000,
        ;
        assert(rn.v == -rp.v);
        let mn = crate::fixed::fmul(x, rn);
        let mp = crate::fixed::fmul(x, rp);
        assert(x.v * (rn.v as int) == -(x.v * rp.v)) by (nonlinear_arith)
            requires
                rn.v == -rp.v,
        ;
        assert(mn.v == -mp.v);
        assert((mn.v as int) * s.v == mp.v * sp.v) by (nonlinear_arith)
            requires
                mn.v == -mp.v,
                sp.v == -s.v,
        ;
        assert(crate::fixed::fmul(mn, s) == crate::fixed::fmul(mp, sp));
    }
}

/// The positive-scalar case of `lemma_div_then_mul_close`.
proof fn lemma_div_then_mul_close_positive(x: Fx, s: Fx)
    requires
        mag(x.v as int) <= 1099511627776,
        1 <= s.v <= 1099511627776,
    ensures
        mag(
            crate::fixed::fmul(crate::fixed::fmul(x, crate::fixed::fdiv(crate::fixed::fx_one(), s)), s).v
                - x.v,
        ) * (SCALE as int) * (SCALE as int) < (SCALE as int) * (SCALE as int) + s.v * (SCALE as int)
            + mag(x.v as int) * s.v,
{
    let sv = s.v as int;
    let xv = x.v as int;
    // The reciprocal on the grid.
    lemma_tdiv_err(1000000000000int, sv);
    vstd::arithmetic::div_mod::lemma_div_pos_is_pos(1000000000000int, sv);
    vstd::arithmetic::div_mod::lemma_fundamental_div_mod(1000000000000int, sv);
    let bigr = tdiv(1000000000000int, sv);
    assert(0 <= bigr <= 1000000000000) by (nonlinear_arith)
        requires
            1000000000000int == sv * bigr + 1000000000000int % sv,
            1000000000000int % sv >= 0,
            sv >= 1,
            bigr >= 0,
    ;
    let recip = crate::fixed::fdiv(crate::fixed::fx_one(), s);
    assert(recip.v == bigr);
    // The divided component.
    let p1 = xv * bigr;
    assert(mag(p1) <= 1099511627776 * 1000000000000) by (nonlinear_arith)
        requires
            mag(xv) <= 1099511627776,
            0 <= bigr <= 1000000000000,
            p1 == xv * bigr,
            mag(p1) == if p1 >= 0 { p1 } else { -p1 },
            mag(xv) == if xv >= 0 { xv } else { -xv },
    ;
    lemma_tdiv_err(p1, SCALE as int);
    let m1 = tdiv(p1, SCALE as int);
    assert(mag(m1) * (SCALE as int) <= mag(p1) + SCALE) by (nonlinear_arith)
        requires
            mag(m1 * SCALE - p1) < SCALE,
            mag(m1) == if m1 >= 0 { m1 } else { -m1 },
            mag(p1) == if p1 >= 0 { p1 } else { -p1 },
            SCALE == 1000000,
    ;
    assert(mag(m1) <= 1099511627777000000) by (nonlinear_arith)
        requires
            mag(m1) * (SCALE as int) <= 1099511627776 * 1000000000000 + SCALE,
            mag(m1) >= 0,
            SCALE == 1000000,
    ;
    let d = crate::fixed::fmul(x, recip);
    assert(d.v == m1);
    // The component scaled back: bound it through the near-cancellation of
    // the reciprocal, not through the loose factor bounds.
    let p2 = m1 * sv;
    assert(mag(p1 * sv) <= mag(xv) * (1000000000000 + sv)) by (nonlinear_arith)
        requires
            p1 == xv * bigr,
            mag(bigr * sv - 1000000000000) < sv,
            sv >= 1,
            bigr >= 0,
            mag(xv) == if xv >= 0 { xv } else { -xv },
            mag(p1 * sv) == if p1 * sv >= 0 { p1 * sv } else { -(p1 * sv) },
            mag(bigr * sv - 1000000000000) == if bigr * sv - 1000000000000 >= 0 {
                bigr * sv - 1000000000000
            } else {
                -(bigr * sv - 1000000000000)
            },
    ;
    assert(mag(p2) * (SCALE as int) <= mag(p1 * sv) + (SCALE as int) * sv) by (nonlinear_arith)
        requires
            mag(m1 * SCALE - p1) < SCALE,
            p2 == m1 * sv,
            sv >= 1,
            SCALE == 1000000,
            mag(p2) == if p2 >= 0 { p2 } else { -p2 },
            mag(p1 * sv) == if p1 * sv >= 0 { p1 * sv } else { -(p1 * sv) },
            mag(m1 * SCALE - p1) == if m1 * SCALE - p1 >= 0 {
                m1 * SCALE - p1
            } else {
                -(m1 * SCALE - p1)
            },
    ;
    assert(mag(p2) <= 2400000000000000000) by (nonlinear_arith)
        requires
            mag(p2) * (SCALE as int) <= mag(xv) * (1000000000000 + sv) + (SCALE as int) * sv,
            mag(xv) <= 1099511627776,
            1 <= sv <= 1099511627776,
            mag(p2) >= 0,
            SCALE == 1000000,
    ;
    lemma_tdiv_err(p2, SCALE as int);
    let m2 = tdiv(p2, SCALE as int);
    assert(mag(m2) * (SCALE as int) <= mag(p2) + SCALE) by (nonlinear_arith)
        requires
            mag(m2 * SCALE - p2) < SCALE,
            mag(m2) == if m2 >= 0 { m2 } else { -m2 },
            mag(p2) == if p2 >= 0 { p2 } else { -p2 },
            SCALE == 1000000,
    ;
    assert(mag(m2) <= 1250000000000000000) by (nonlinear_arith)
        requires
            mag(m2) * (SCALE as int) <= 2400000000000000000 + SCALE,
            mag(m2) >= 0,
            SCALE == 1000000,
    ;
    let back = crate::fixed::fmul(d, s);
    assert(back.v == m2);
    // Chain the three rounding errors.
    assert(mag(m1 * SCALE * sv - p1 * sv) < (SCALE as int) * sv) by (nonlinear_arith)
        requires
            mag(m1 * SCALE - p1) < SCALE,
            sv >= 1,
            mag(m1 * SCALE * sv - p1 * sv) == if m1 * SCALE * sv - p1 * sv >= 0 {
                m1 * SCALE * sv - p1 * sv
            } else {
                -(m1 * SCALE * sv - p1 * sv)
            },
            mag(m1 * SCALE - p1) == if m1 * SCALE - p1 >= 0 {
                m1 * SCALE - p1
            } else {
                -(m1 * SCALE - p1)
            },
    ;
    assert(mag(xv * (bigr * sv) - xv * 1000000000000) <= mag(xv) * sv) by (nonlinear_arith)
        requires
            mag(bigr * sv - 1000000000000) < sv,
            sv >= 1,
            mag(xv) == if xv >= 0 { xv } else { -xv },
            mag(xv * (bigr * sv) - xv * 1000000000000) == if xv * (bigr * sv) - xv * 1000000000000
                >= 0 {
                xv * (bigr * sv) - xv * 1000000000000
            } else {
                -(xv * (bigr * sv) - xv * 1000000000000)
            },
            mag(bigr * sv - 1000000000000) == if bigr * sv - 1000000000000 >= 0 {
                bigr * sv - 1000000000000
            } else {
                -(bigr * sv - 1000000000000)
            },
    ;
    assert(mag(m2 - xv) * (SCALE as int) * (SCALE as int) < (SCALE as int) * (SCALE as int) + sv * (
    SCALE as int) + mag(xv) * sv) by (nonlinear_arith)
        requires
            mag(m2 * SCALE - p2) < SCALE,
            p2 == m1 * sv,
            p1 == xv * bigr,
            mag(m1 * SCALE * sv - p1 * sv) < (SCALE as int) * sv,
            mag(xv * (bigr * sv) - xv * 1000000000000) <= mag(xv) * sv,
            SCALE == 1000000,
            mag(m2 - xv) == if m2 - xv >= 0 { m2 - xv } else { -(m2 - xv) },
            mag(m2 * SCALE - p2) == if m2 * SCALE - p2 >= 0 {
                m2 * SCALE - p2
            } else {
                -(m2 * SCALE - p2)
            },
            mag(xv) == if xv >= 0 { xv } else { -xv },
            mag(m1 * SCALE * sv - p1 * sv) == if m1 * SCALE * sv - p1 * sv >= 0 {
                m1 * SCALE * sv - p1 * sv
            } else {
                -(m1 * SCALE * sv - p1 * sv)
            },
            mag(xv * (bigr * sv) - xv * 1000000000000) == if xv * (bigr * sv) - xv * 1000000000000
                >= 0 {
                xv * (bigr * sv) - xv * 1000000000000
            } else {
                -(xv * (bigr * sv) - xv * 1000000000000)
            },
    ;
}

/// The rounded cross product is antisymmetric, exactly: swapping the
/// arguments negates every component.
pub proof fn lemma_cross_antisymmetric(a: Vec3, b: Vec3)
    ensures
        scross(b, a) == vneg(scross(a, b)),
{
    assert(a.y.v * b.z.v == b.z.v * a.y.v) by (nonlinear_arith);
    assert(b.y.v * a.z.v == a.z.v * b.y.v) by (nonlinear_arith);
    assert(a.x.v * b.z.v == b.z.v * a.x.v) by (nonlinear_arith);
    assert(b.x.v * a.z.v == a.z.v * b.x.v) by (nonlinear_arith);
    assert(a.x.v * b.y.v == b.y.v * a.x.v) by (nonlinear_arith);
    assert(b.x.v * a.y.v == a.y.v * b.x.v) by (nonlinear_arith);
}

/// The exact cross product is perpendicular to both of its arguments.
pub proof fn lemma_cross_perpendicular(a: Vec3, b: Vec3)
    ensures
        cross_exact_x(a, b) * a.x.v + cross_exact_y(a, b) * a.y.v + cross_exact_z(a, b) * a.z.v
            == 0,
        cross_exact_x(a, b) * b.x.v + cross_exact_y(a, b) * b.y.v + cross_exact_z(a, b) * b.z.v
            == 0,
{
    assert((a.y.v * b.z.v - b.y.v * a.z.v) * a.x.v + (b.x.v * a.z.v - a.x.v * b.z.v) * a.y.v + (
    a.x.v * b.y.v - b.x.v * a.y.v) * a.z.v == 0) by (nonlinear_arith);
    assert((a.y.v * b.z.v - b.y.v * a.z.v) * b.x.v + (b.x.v * a.z.v - a.x.v * b.z.v) * b.y.v + (
    a.x.v * b.y.v - b.x.v * a.y.v) * b.z.v == 0) by (nonlinear_arith);
}

/// An accepted sphere hit lies inside the queried parameter window.
pub proof fn lemma_sphere_hit_in_range(s: Sphere, ray: Ray, t_min: Fx, t_max: Fx)
    ensures
        (match sphere_hit_spec(s, ray, t_min, t_max) {
            Some(h) => t_min.v <= h.t.v <= t_max.v,
            None => true,
        }),
{
}

/// Shrinking the upper bound of the window down to (at least) the reported
/// parameter does not change the reported hit.
pub proof fn lemma_sphere_hit_narrow(s: Sphere, ray: Ray, t_min: Fx, t_max: Fx, t_mid: Fx)
    requires
        (sphere_hit_spec(s, ray, t_min, t_max) matches Some(h) && h.t.v <= t_mid.v <= t_max.v),
    ensures
        sphere_hit_spec(s, ray, t_min, t_mid) == sphere_hit_spec(s, ray, t_min, t_max),
{
}

/// Widening the upper bound of the window keeps a hit and can only move
/// the reported parameter closer to the eye.
pub proof fn lemma_sphere_hit_widen(s: Sphere, ray: Ray, t_min: Fx, t_mid: Fx, t_max: Fx)
    requires
        t_mid.v <= t_max.v,
        s_len_sq(ray.direction).v >= 1,
        (sphere_hit_spec(s, ray, t_min, t_mid) matches Some(h)),
    ensures
        (match (sphere_hit_spec(s, ray, t_min, t_mid), sphere_hit_spec(s, ray, t_min, t_max)) {
            (Some(hm), Some(hw)) => hw.t.v <= hm.t.v,
            _ => false,
        }),
{
    let oc = crate::algebra::vsub(ray.origin, s.center);
    let a = s_len_sq(ray.direction);
    let half_b = sdot(ray.direction, oc);
    let c = crate::fixed::fsub(sdot(oc, oc), crate::fixed::fmul(s.radius, s.radius));
    let disc = crate::fixed::fsub(
        crate::fixed::fmul(half_b, half_b),
        crate::fixed::fmul(a, c),
    );
    let sqrtd = crate::fixed::fsqrt(disc);
    assert(disc.v >= 0);
    assert(disc.v * (SCALE as int) >= 0) by (nonlinear_arith)
        requires
            disc.v >= 0,
            SCALE == 1000000,
    ;
    lemma_sqrt_floor_exists(disc.v * (SCALE as int));
    let n = disc.v * (SCALE as int);
    let sq = crate::fixed::sqrt_floor(n);
    assert(n <= 4611686018427387904 * 1000000) by (nonlinear_arith)
        requires
            0 <= disc.v <= 4611686018427387904,
            n == disc.v * 1000000,
    ;
    assert(0 <= sq < 3000000000000) by (nonlinear_arith)
        requires
            crate::fixed::is_sqrt_floor(n, sq),
            0 <= n <= 4611686018427387904 * 1000000,
    ;
    assert(sqrtd.v >= 0);
    let num1 = crate::fixed::fsub(crate::fixed::fneg(half_b), sqrtd);
    let num2 = crate::fixed::fadd(crate::fixed::fneg(half_b), sqrtd);
    lemma_clip_monotone(-half_b.v - sqrtd.v, -half_b.v + sqrtd.v);
    assert(num1.v <= num2.v);
    lemma_tdiv_monotone(num1.v * (SCALE as int), num2.v * (SCALE as int), a.v as int);
    lemma_clip_monotone(
        tdiv(num1.v * (SCALE as int), a.v as int),
        tdiv(num2.v * (SCALE as int), a.v as int),
    );
    let root1 = crate::fixed::fdiv(num1, a);
    let root2 = crate::fixed::fdiv(num2, a);
    assert(root1.v <= root2.v);
}

/// With two spheres both intersecting the queried ray at different
/// parameters, the scene query returns the geometrically closer hit,
/// whichever order the spheres were inserted in.
pub proof fn lemma_world_two_order(a: Sphere, b: Sphere, ray: Ray, t_min: Fx, t_max: Fx)
    requires
        s_len_sq(ray.direction).v >= 1,
        (sphere_hit_spec(a, ray, t_min, t_max) matches Some(ha)),
        (sphere_hit_spec(b, ray, t_min, t_max) matches Some(hb)),
        (match (sphere_hit_spec(a, ray, t_min, t_max), sphere_hit_spec(b, ray, t_min, t_max)) {
            (Some(ha), Some(hb)) => ha.t.v < hb.t.v,
            _ => false,
        }),
    ensures
        world_scan(seq![a, b], ray, t_min, t_max, None) == sphere_hit_spec(a, ray, t_min, t_max),
        world_scan(seq![b, a], ray, t_min, t_max, None) == sphere_hit_spec(a, ray, t_min, t_max),
{
    let ha = sphere_hit_spec(a, ray, t_min, t_max)->Some_0;
    let hb = sphere_hit_spec(b, ray, t_min, t_max)->Some_0;
    lemma_sphere_hit_in_range(a, ray, t_min, t_max);
    lemma_sphere_hit_in_range(b, ray, t_min, t_max);

    // Scanning [a, b]: after accepting `ha`, the window shrinks to `ha.t`,
    // where `b` can no longer report anything.
    assert(sphere_hit_spec(b, ray, t_min, ha.t) is None) by {
        if sphere_hit_spec(b, ray, t_min, ha.t) is Some {
            lemma_sphere_hit_widen(b, ray, t_min, ha.t, t_max);
        }
    }
    let s_ab = seq![a, b];
    assert(s_ab.len() == 2 && s_ab[0] == a);
    assert(s_ab.drop_first() =~= seq![b]);
    assert(seq![b].len() == 1 && seq![b][0] == b);
    assert(seq![b].drop_first() =~= Seq::<Sphere>::empty());
    assert(world_scan(Seq::<Sphere>::empty(), ray, t_min, ha.t, Some(ha)) == Some(ha));
    assert(world_scan(seq![b], ray, t_min, ha.t, Some(ha)) == Some(ha));
    assert(world_scan(seq![a, b], ray, t_min, t_max, None) == Some(ha));

    // Scanning [b, a]: after accepting `hb`, the window shrinks to `hb.t`,
    // where `a` still reports exactly `ha`.
    lemma_sphere_hit_narrow(a, ray, t_min, t_max, hb.t);
    let s_ba = seq![b, a];
    assert(s_ba.len() == 2 && s_ba[0] == b);
    assert(s_ba.drop_first() =~= seq![a]);
    assert(seq![a].len() == 1 && seq![a][0] == a);
    assert(seq![a].drop_first() =~= Seq::<Sphere>::empty());
    assert(sphere_hit_spec(a, ray, t_min, hb.t) == Some(ha));
    assert(world_scan(Seq::<Sphere>::empty(), ray, t_min, ha.t, Some(ha)) == Some(ha));
    assert(world_scan(seq![a], ray, t_min, hb.t, Some(hb)) == Some(ha));
    assert(world_scan(seq![b, a], ray, t_min, t_max, None) == Some(ha));
}

/// An accumulator holding exactly full radiance for every sample encodes
/// as the maximum channel value 255, whatever the sample count: the mean
/// is an exact grid division, so it is exactly one.
pub proof fn lemma_full_radiance_encodes_max(spp: int)
    requires
        1 <= spp <= 2147483647,
    ensures
        channel_spec(Fx { v: (spp * SCALE) as i128 }, spp) == 255,
{
    let spp_raw = spp * (SCALE as int);
    assert(1000000 <= spp_raw <= 2147483647000000) by (nonlinear_arith)
        requires
            1 <= spp <= 2147483647,
            spp_raw == spp * (SCALE as int),
            SCALE == 1000000,
    ;
    // The mean: the accumulator divided by the sample count, exactly one.
    assert(spp_raw * (SCALE as int) == (SCALE as int) * spp_raw) by (nonlinear_arith);
    vstd::arithmetic::div_mod::lemma_div_by_multiple(SCALE as int, spp_raw);
    assert(tdiv(spp_raw * (SCALE as int), spp_raw) == SCALE as int);
    let m = crate::fixed::fdiv(Fx { v: spp_raw as i128 }, Fx { v: spp_raw as i128 });
    assert(m.v == SCALE as int);
    // The square root of one is one.
    assert(1000000int * 1000000int <= 1000000000000int) by (nonlinear_arith);
    assert(1000000000000int < 1000001int * 1000001int) by (nonlinear_arith);
    crate::fixed::lemma_sqrt_floor_is(1000000000000, 1000000);
    let rs = crate::fixed::fsqrt(m);
    assert(rs.v == 1000000);
    // Clamping and quantization land exactly on 255.
    let cl = crate::clamp_spec(rs, Fx { v: 0 }, Fx { v: 999000 });
    assert(cl.v == 999000);
    assert((256int * 999000int) / (SCALE as int) == 255);
}

} // verus!
