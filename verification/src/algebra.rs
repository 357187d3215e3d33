//! Three-component vectors over the fixed-point grid.
//!
//! A `Vec3` serves as a free vector, a point and a color.  Every executable
//! operation is pinned to a spec-level mirror (`vadd`, `sdot`, ...) that
//! states its result exactly; the classical algebra laws over these mirrors
//! are proved in the `laws` module.
use vstd::prelude::*;

use crate::fixed::Fx;
use crate::fixed::SCALE;
use crate::fixed::LIM;
use crate::fixed::fadd;
use crate::fixed::fdiv;
use crate::fixed::fmul;
use crate::fixed::fneg;
use crate::fixed::fsqrt;
use crate::fixed::fsub;
use crate::fixed::fx_one;
use crate::fixed::fx_wf;
use crate::fixed::mag;
use crate::fixed::tdiv;
use crate::fixed::lemma_sqrt_floor_exists;
use crate::fixed::sqrt_floor;
use crate::fixed::is_sqrt_floor;

verus! {

/// An ordered triple of grid values: vector, point or color.
#[derive(Clone, Copy, PartialEq, Eq, Structural, Debug)]
pub struct Vec3 {
    pub x: Fx,
    pub y: Fx,
    pub z: Fx,
}

/// All three components are on the grid.
pub open spec fn vec_wf(v: Vec3) -> bool {
    &&& fx_wf(v.x)
    &&& fx_wf(v.y)
    &&& fx_wf(v.z)
}

/// All three components have magnitude at most `m` (in raw grid steps).
pub open spec fn vec_bounded(v: Vec3, m: int) -> bool {
    &&& mag(v.x.v as int) <= m
    &&& mag(v.y.v as int) <= m
    &&& mag(v.z.v as int) <= m
}

/// Component-wise sum.
pub open spec fn vadd(a: Vec3, b: Vec3) -> Vec3 {
    Vec3 { x: fadd(a.x, b.x), y: fadd(a.y, b.y), z: fadd(a.z, b.z) }
}

/// Component-wise difference.
pub open spec fn vsub(a: Vec3, b: Vec3) -> Vec3 {
    Vec3 { x: fsub(a.x, b.x), y: fsub(a.y, b.y), z: fsub(a.z, b.z) }
}

/// Component-wise negation.
pub open spec fn vneg(a: Vec3) -> Vec3 {
    Vec3 { x: fneg(a.x), y: fneg(a.y), z: fneg(a.z) }
}

/// Scaling by a grid scalar.
pub open spec fn vmul(a: Vec3, s: Fx) -> Vec3 {
    Vec3 { x: fmul(a.x, s), y: fmul(a.y, s), z: fmul(a.z, s) }
}

/// Division by a grid scalar: scaling by its reciprocal.
pub open spec fn vdiv(a: Vec3, s: Fx) -> Vec3
    recommends
        s.v != 0,
{
    vmul(a, fdiv(fx_one(), s))
}

/// The rounded dot product, summed in the evaluation order of `dot`.
pub open spec fn sdot(a: Vec3, b: Vec3) -> Fx {
    fadd(fadd(fmul(a.x, b.x), fmul(a.y, b.y)), fmul(a.z, b.z))
}

/// The rounded cross product.
pub open spec fn scross(a: Vec3, b: Vec3) -> Vec3 {
    Vec3 {
        x: fsub(fmul(a.y, b.z), fmul(b.y, a.z)),
        y: fsub(fmul(b.x, a.z), fmul(a.x, b.z)),
        z: fsub(fmul(a.x, b.y), fmul(b.x, a.y)),
    }
}

/// Squared length: the vector dotted with itself.
pub open spec fn s_len_sq(v: Vec3) -> Fx {
    sdot(v, v)
}

/// Length: square root of the squared length.
pub open spec fn s_len(v: Vec3) -> Fx
    recommends
        s_len_sq(v).v >= 0,
{
    fsqrt(s_len_sq(v))
}

/// Normalization: division by the length.
pub open spec fn s_unit(v: Vec3) -> Vec3
    recommends
        s_len_sq(v).v >= 1,
{
    vdiv(v, s_len(v))
}

/// A square truncated onto the grid is nonnegative.
pub proof fn lemma_fmul_self_nonneg(a: Fx)
    ensures
        fmul(a, a).v >= 0,
{
    assert(a.v * a.v >= 0) by (nonlinear_arith);
    assert(tdiv(a.v * a.v, SCALE as int) >= 0) by {
        vstd::arithmetic::div_mod::lemma_div_pos_is_pos(mag(a.v * a.v), SCALE as int);
    }
}

/// The squared length of any vector is nonnegative.
pub proof fn lemma_len_sq_nonneg(v: Vec3)
    ensures
        s_len_sq(v).v >= 0,
{
    lemma_fmul_self_nonneg(v.x);
    lemma_fmul_self_nonneg(v.y);
    lemma_fmul_self_nonneg(v.z);
}

/// A nonzero squared length forces a length of at least one thousandth.
pub proof fn lemma_len_positive(v: Vec3)
    requires
        s_len_sq(v).v >= 1,
    ensures
        s_len(v).v >= 1000,
{
    let c = s_len_sq(v).v as int;
    assert(1 <= c <= LIM as int);
    let n = c * (SCALE as int);
    assert(1000000 <= n <= (LIM as int) * 1000000) by (nonlinear_arith)
        requires
            1 <= c <= LIM as int,
            n == c * (SCALE as int),
            SCALE == 1000000,
    ;
    lemma_sqrt_floor_exists(n);
    let r = sqrt_floor(n);
    assert(1000 <= r < 3000000000000) by (nonlinear_arith)
        requires
            is_sqrt_floor(n, r),
            1000000 <= n <= 4611686018427387904 * 1000000,
    ;
}

impl Vec3 {
    /// The vector with the given components.
    pub fn new(x: Fx, y: Fx, z: Fx) -> (r: Vec3)
        ensures
            r == (Vec3 { x, y, z }),
    {
        Vec3 { x, y, z }
    }

    /// The zero vector.
    pub fn zero() -> (r: Vec3)
        ensures
            r.x.v == 0 && r.y.v == 0 && r.z.v == 0,
            vec_wf(r),
    {
        Vec3 { x: Fx::zero(), y: Fx::zero(), z: Fx::zero() }
    }

    /// The all-ones vector.
    pub fn one() -> (r: Vec3)
        ensures
            r.x.v == SCALE && r.y.v == SCALE && r.z.v == SCALE,
            vec_wf(r),
    {
        Vec3 { x: Fx::one(), y: Fx::one(), z: Fx::one() }
    }

    /// Component-wise sum.
    pub fn add(self, rhs: Vec3) -> (r: Vec3)
        requires
            vec_wf(self),
            vec_wf(rhs),
        ensures
            r == vadd(self, rhs),
            vec_wf(r),
    {
        Vec3 { x: self.x.add(rhs.x), y: self.y.add(rhs.y), z: self.z.add(rhs.z) }
    }

    /// Component-wise difference.
    pub fn sub(self, rhs: Vec3) -> (r: Vec3)
        requires
            vec_wf(self),
            vec_wf(rhs),
        ensures
            r == vsub(self, rhs),
            vec_wf(r),
    {
        Vec3 { x: self.x.sub(rhs.x), y: self.y.sub(rhs.y), z: self.z.sub(rhs.z) }
    }

    /// Scaling by a grid scalar.
    pub fn mul(self, rhs: Fx) -> (r: Vec3)
        requires
            vec_wf(self),
            fx_wf(rhs),
        ensures
            r == vmul(self, rhs),
            vec_wf(r),
    {
        Vec3 { x: self.x.mul(rhs), y: self.y.mul(rhs), z: self.z.mul(rhs) }
    }

    /// Division by a grid scalar: scaling by its reciprocal.
    pub fn div(self, rhs: Fx) -> (r: Vec3)
        requires
            vec_wf(self),
            fx_wf(rhs),
            rhs.v != 0,
        ensures
            r == vdiv(self, rhs),
            vec_wf(r),
    {
        let recip = Fx::one().div(rhs);
        self.mul(recip)
    }

    /// Squared length, avoiding the square root.
    pub fn length_sqaured(&self) -> (r: Fx)
        requires
            vec_wf(*self),
        ensures
            r == s_len_sq(*self),
            fx_wf(r),
            r.v >= 0,
    {
        proof {
            lemma_len_sq_nonneg(*self);
        }
        self.x.mul(self.x).add(self.y.mul(self.y)).add(self.z.mul(self.z))
    }

    /// Euclidean length.
    pub fn length(&self) -> (r: Fx)
        requires
            vec_wf(*self),
        ensures
            r == s_len(*self),
            fx_wf(r),
            r.v >= 0,
    {
        self.length_sqaured().sqrt()
    }

    /// The vector scaled to (approximately) unit length.
    pub fn unit_vector(self) -> (r: Vec3)
        requires
            vec_wf(self),
            s_len_sq(self).v >= 1,
        ensures
            r == s_unit(self),
            vec_wf(r),
    {
        proof {
            lemma_len_positive(self);
        }
        let l = self.length();
        self.div(l)
    }
}

/// The reciprocal of the length of a vector with nonzero squared length is
/// at most one thousand, so normalizing keeps components far inside the grid.
pub proof fn lemma_unit_bounded(p: Vec3)
    requires
        vec_wf(p),
        vec_bounded(p, SCALE as int),
        1 <= s_len_sq(p).v,
    ensures
        vec_bounded(s_unit(p), 1000000000),
{
    lemma_len_positive(p);
    let len = s_len(p);
    let q = tdiv((SCALE as int) * (SCALE as int), len.v as int);
    vstd::arithmetic::div_mod::lemma_div_is_ordered_by_denominator(
        1000000000000,
        1000,
        len.v as int,
    );
    vstd::arithmetic::div_mod::lemma_div_pos_is_pos(1000000000000, len.v as int);
    assert(0 <= q <= 1000000000);
    let recip = fdiv(fx_one(), len);
    assert(recip.v == q);
    crate::fixed::lemma_fmul_mag(p.x, recip, SCALE as int, 1000000000);
    crate::fixed::lemma_fmul_mag(p.y, recip, SCALE as int, 1000000000);
    crate::fixed::lemma_fmul_mag(p.z, recip, SCALE as int, 1000000000);
    assert((SCALE as int) * 1000000000 / (SCALE as int) == 1000000000) by (nonlinear_arith)
        requires
            SCALE == 1000000,
    ;
}

/// One component's contribution to a squared length never exceeds the
/// whole, and bounds the component itself: `c^2 < (q + 1) * SCALE` for its
/// rounded square `q`.
proof fn lemma_component_sq(c: Fx, q: int)
    requires
        q == fmul(c, c).v,
        mag(c.v as int) <= crate::fixed::DMAX as int,
    ensures
        q >= 0,
        c.v * c.v < (q + 1) * (SCALE as int),
{
    lemma_fmul_self_nonneg(c);
    let p = c.v * c.v;
    assert(c.v * c.v >= 0) by (nonlinear_arith);
    assert(p <= 1208925819614629174706176) by (nonlinear_arith)
        requires
            mag(c.v as int) <= 1099511627776,
            p == c.v * c.v,
            mag(c.v as int) == if c.v >= 0 { c.v as int } else { -(c.v as int) },
    ;
    vstd::arithmetic::div_mod::lemma_fundamental_div_mod(p, SCALE as int);
    vstd::arithmetic::div_mod::lemma_remainder_upper(p, SCALE as int);
    vstd::arithmetic::div_mod::lemma_div_pos_is_pos(p, SCALE as int);
    vstd::arithmetic::div_mod::lemma_div_is_ordered(p, 1208925819614629174706176int, SCALE as int);
    assert(tdiv(p, SCALE as int) == p / (SCALE as int));
    assert(p < (p / (SCALE as int) + 1) * (SCALE as int)) by (nonlinear_arith)
        requires
            p == (SCALE as int) * (p / (SCALE as int)) + p % (SCALE as int),
            p % (SCALE as int) < SCALE as int,
            SCALE == 1000000,
    ;
    assert(q == tdiv(p, SCALE as int));
}

/// Normalizing a vector with nonzero squared length yields components of
/// magnitude at most two: the length cannot round below half of any
/// component.
pub proof fn lemma_unit_components_bounded(v: Vec3)
    requires
        vec_bounded(v, crate::fixed::DMAX as int),
        1 <= s_len_sq(v).v,
    ensures
        vec_bounded(s_unit(v), 2 * (SCALE as int)),
{
    lemma_len_positive(v);
    let ls = s_len_sq(v).v as int;
    let qx = fmul(v.x, v.x).v as int;
    let qy = fmul(v.y, v.y).v as int;
    let qz = fmul(v.z, v.z).v as int;
    crate::fixed::lemma_fmul_mag(v.x, v.x, crate::fixed::DMAX as int, crate::fixed::DMAX as int);
    crate::fixed::lemma_fmul_mag(v.y, v.y, crate::fixed::DMAX as int, crate::fixed::DMAX as int);
    crate::fixed::lemma_fmul_mag(v.z, v.z, crate::fixed::DMAX as int, crate::fixed::DMAX as int);
    lemma_component_sq(v.x, qx);
    lemma_component_sq(v.y, qy);
    lemma_component_sq(v.z, qz);
    assert((1099511627776int * 1099511627776int) / (SCALE as int) <= 1208925819614629175);
    assert(ls == qx + qy + qz);
    // The length squares to (nearly) the squared length, which dominates
    // each component's square.
    let n = ls * (SCALE as int);
    assert(1000000 <= n <= (LIM as int) * 1000000) by (nonlinear_arith)
        requires
            1 <= ls <= LIM as int,
            n == ls * (SCALE as int),
            SCALE == 1000000,
    ;
    lemma_sqrt_floor_exists(n);
    let len = sqrt_floor(n);
    assert(1000 <= len < 3000000000000) by (nonlinear_arith)
        requires
            is_sqrt_floor(n, len),
            1000000 <= n <= 4611686018427387904 * 1000000,
    ;
    assert(s_len(v).v == len);
    assert(4 * (len * len) >= n + (SCALE as int)) by (nonlinear_arith)
        requires
            1000 <= len,
            len * len <= n,
            n < (len + 1) * (len + 1),
            1000000 <= n,
            SCALE == 1000000,
    ;
    // Each raw component is at most twice the length.
    assert(v.x.v * v.x.v <= 4 * (len * len)) by (nonlinear_arith)
        requires
            v.x.v * v.x.v < (qx + 1) * (SCALE as int),
            qx + qy + qz == ls,
            qy >= 0,
            qz >= 0,
            n == ls * (SCALE as int),
            4 * (len * len) >= n + (SCALE as int),
    ;
    assert(v.y.v * v.y.v <= 4 * (len * len)) by (nonlinear_arith)
        requires
            v.y.v * v.y.v < (qy + 1) * (SCALE as int),
            qx + qy + qz == ls,
            qx >= 0,
            qz >= 0,
            n == ls * (SCALE as int),
            4 * (len * len) >= n + (SCALE as int),
    ;
    assert(v.z.v * v.z.v <= 4 * (len * len)) by (nonlinear_arith)
        requires
            v.z.v * v.z.v < (qz + 1) * (SCALE as int),
            qx >= 0,
            qy >= 0,
            qx + qy + qz == ls,
            n == ls * (SCALE as int),
            4 * (len * len) >= n + (SCALE as int),
    ;
    assert(mag(v.x.v as int) <= 2 * len && mag(v.y.v as int) <= 2 * len && mag(v.z.v as int) <= 2
        * len) by (nonlinear_arith)
        requires
            v.x.v * v.x.v <= 4 * (len * len),
            v.y.v * v.y.v <= 4 * (len * len),
            v.z.v * v.z.v <= 4 * (len * len),
            len >= 0,
            mag(v.x.v as int) == if v.x.v >= 0 { v.x.v as int } else { -(v.x.v as int) },
            mag(v.y.v as int) == if v.y.v >= 0 { v.y.v as int } else { -(v.y.v as int) },
            mag(v.z.v as int) == if v.z.v >= 0 { v.z.v as int } else { -(v.z.v as int) },
    ;
    // The reciprocal of the length times the length stays within one grid.
    let lenfx = s_len(v);
    vstd::arithmetic::div_mod::lemma_fundamental_div_mod(1000000000000int, len);
    vstd::arithmetic::div_mod::lemma_div_pos_is_pos(1000000000000int, len);
    let bigr = tdiv(1000000000000int, len);
    assert(bigr * len <= 1000000000000 && 0 <= bigr <= 1000000000) by (nonlinear_arith)
        requires
            1000000000000int == len * bigr + 1000000000000int % len,
            0 <= 1000000000000int % len,
            1000 <= len,
            bigr >= 0,
    ;
    let recip = fdiv(fx_one(), lenfx);
    assert(recip.v == bigr);
    // Hence each normalized component is at most two.
    crate::fixed::lemma_fmul_mag(v.x, recip, 2 * len, bigr);
    crate::fixed::lemma_fmul_mag(v.y, recip, 2 * len, bigr);
    crate::fixed::lemma_fmul_mag(v.z, recip, 2 * len, bigr);
    assert((2 * len) * bigr <= 2000000000000) by (nonlinear_arith)
        requires
            bigr * len <= 1000000000000,
            bigr >= 0,
            len >= 0,
    ;
    vstd::arithmetic::div_mod::lemma_div_is_ordered(
        (2 * len) * bigr,
        2000000000000int,
        SCALE as int,
    );
    assert(((2 * len) * bigr) / (SCALE as int) <= 2 * (SCALE as int));
}

/// Normalizing a vector of length at least one yields components within
/// one per-mille of the unit range: a length this long cannot round away
/// more than a thousandth of any component.
pub proof fn lemma_unit_components_tight(v: Vec3)
    requires
        vec_bounded(v, crate::fixed::DMAX as int),
        (SCALE as int) <= s_len_sq(v).v,
    ensures
        vec_bounded(s_unit(v), SCALE as int + 1000),
{
    lemma_len_positive(v);
    let ls = s_len_sq(v).v as int;
    let qx = fmul(v.x, v.x).v as int;
    let qy = fmul(v.y, v.y).v as int;
    let qz = fmul(v.z, v.z).v as int;
    crate::fixed::lemma_fmul_mag(v.x, v.x, crate::fixed::DMAX as int, crate::fixed::DMAX as int);
    crate::fixed::lemma_fmul_mag(v.y, v.y, crate::fixed::DMAX as int, crate::fixed::DMAX as int);
    crate::fixed::lemma_fmul_mag(v.z, v.z, crate::fixed::DMAX as int, crate::fixed::DMAX as int);
    lemma_component_sq(v.x, qx);
    lemma_component_sq(v.y, qy);
    lemma_component_sq(v.z, qz);
    assert((1099511627776int * 1099511627776int) / (SCALE as int) <= 1208925819614629175);
    assert(ls == qx + qy + qz);
    let n = ls * (SCALE as int);
    assert(1000000000000 <= n <= (LIM as int) * 1000000) by (nonlinear_arith)
        requires
            1000000 <= ls <= LIM as int,
            n == ls * (SCALE as int),
            SCALE == 1000000,
    ;
    lemma_sqrt_floor_exists(n);
    let len = sqrt_floor(n);
    assert(1000000 <= len < 3000000000000) by (nonlinear_arith)
        requires
            is_sqrt_floor(n, len),
            1000000000000 <= n <= 4611686018427387904 * 1000000,
    ;
    assert(s_len(v).v == len);
    assert(len <= ls) by (nonlinear_arith)
        requires
            len * len <= n,
            n == ls * (SCALE as int),
            SCALE == 1000000,
            1000000 <= len,
    ;
    // The sharp square bound: one extra per-mille of the length covers the
    // rounding of the squared length and of the root.
    assert((ls + 1) * 1000000000000000000int <= 1002001000000 * (len * len)) by (nonlinear_arith)
        requires
            1000000 <= ls,
            1000000 <= len,
            len <= ls,
            n == ls * 1000000,
            len * len <= n,
            n < (len + 1) * (len + 1),
    ;
    assert(mag(v.x.v as int) * (SCALE as int) <= 1001000 * len) by (nonlinear_arith)
        requires
            v.x.v * v.x.v < (qx + 1) * (SCALE as int),
            qx + qy + qz == ls,
            qy >= 0,
            qz >= 0,
            (ls + 1) * 1000000000000000000int <= 1002001000000 * (len * len),
            SCALE == 1000000,
            len >= 0,
            mag(v.x.v as int) == if v.x.v >= 0 { v.x.v as int } else { -(v.x.v as int) },
    ;
    assert(mag(v.y.v as int) * (SCALE as int) <= 1001000 * len) by (nonlinear_arith)
        requires
            v.y.v * v.y.v < (qy + 1) * (SCALE as int),
            qx + qy + qz == ls,
            qx >= 0,
            qz >= 0,
            (ls + 1) * 1000000000000000000int <= 1002001000000 * (len * len),
            SCALE == 1000000,
            len >= 0,
            mag(v.y.v as int) == if v.y.v >= 0 { v.y.v as int } else { -(v.y.v as int) },
    ;
    assert(mag(v.z.v as int) * (SCALE as int) <= 1001000 * len) by (nonlinear_arith)
        requires
            v.z.v * v.z.v < (qz + 1) * (SCALE as int),
            qx + qy + qz == ls,
            qx >= 0,
            qy >= 0,
            (ls + 1) * 1000000000000000000int <= 1002001000000 * (len * len),
            SCALE == 1000000,
            len >= 0,
            mag(v.z.v as int) == if v.z.v >= 0 { v.z.v as int } else { -(v.z.v as int) },
    ;
    // The reciprocal of the length, and the scaled components.
    let lenfx = s_len(v);
    vstd::arithmetic::div_mod::lemma_fundamental_div_mod(1000000000000int, len);
    vstd::arithmetic::div_mod::lemma_div_pos_is_pos(1000000000000int, len);
    let bigr = tdiv(1000000000000int, len);
    assert(bigr * len <= 1000000000000 && 0 <= bigr <= 1000000) by (nonlinear_arith)
        requires
            1000000000000int == len * bigr + 1000000000000int % len,
            0 <= 1000000000000int % len,
            1000000 <= len,
            bigr >= 0,
    ;
    let recip = fdiv(fx_one(), lenfx);
    assert(recip.v == bigr);
    assert(mag(v.x.v as int) * bigr <= 1001000 * (SCALE as int)) by (nonlinear_arith)
        requires
            bigr * len <= 1000000000000,
            mag(v.x.v as int) * (SCALE as int) <= 1001000 * len,
            len >= 1,
            bigr >= 0,
            mag(v.x.v as int) >= 0,
            SCALE == 1000000,
    ;
    assert(mag(v.y.v as int) * bigr <= 1001000 * (SCALE as int)) by (nonlinear_arith)
        requires
            bigr * len <= 1000000000000,
            mag(v.y.v as int) * (SCALE as int) <= 1001000 * len,
            len >= 1,
            bigr >= 0,
            mag(v.y.v as int) >= 0,
            SCALE == 1000000,
    ;
    assert(mag(v.z.v as int) * bigr <= 1001000 * (SCALE as int)) by (nonlinear_arith)
        requires
            bigr * len <= 1000000000000,
            mag(v.z.v as int) * (SCALE as int) <= 1001000 * len,
            len >= 1,
            bigr >= 0,
            mag(v.z.v as int) >= 0,
            SCALE == 1000000,
    ;
    crate::fixed::lemma_fmul_mag(v.x, recip, mag(v.x.v as int), bigr);
    crate::fixed::lemma_fmul_mag(v.y, recip, mag(v.y.v as int), bigr);
    crate::fixed::lemma_fmul_mag(v.z, recip, mag(v.z.v as int), bigr);
    vstd::arithmetic::div_mod::lemma_div_is_ordered(
        mag(v.x.v as int) * bigr,
        1001000 * (SCALE as int),
        SCALE as int,
    );
    vstd::arithmetic::div_mod::lemma_div_is_ordered(
        mag(v.y.v as int) * bigr,
        1001000 * (SCALE as int),
        SCALE as int,
    );
    vstd::arithmetic::div_mod::lemma_div_is_ordered(
        mag(v.z.v as int) * bigr,
        1001000 * (SCALE as int),
        SCALE as int,
    );
    vstd::arithmetic::div_mod::lemma_div_by_multiple(1001000int, SCALE as int);
    assert((1001000 * (SCALE as int)) / (SCALE as int) == 1001000) by {
        assert(1001000 * (SCALE as int) == 1001000int * (SCALE as int)) by (nonlinear_arith);
    }
}

impl Vec3 {
    /// A vector with each component drawn uniformly from `[0, 1)`.
    pub fn random() -> (r: Vec3)
        ensures
            vec_wf(r),
            0 <= r.x.v < SCALE,
            0 <= r.y.v < SCALE,
            0 <= r.z.v < SCALE,
            vec_bounded(r, SCALE as int),
    {
        Vec3 { x: crate::random(), y: crate::random(), z: crate::random() }
    }

    /// A vector with each component drawn uniformly from `[min, max)`.
    pub fn random_range(min: Fx, max: Fx) -> (r: Vec3)
        requires
            fx_wf(min),
            fx_wf(max),
        ensures
            vec_wf(r),
            min.v < max.v ==> min.v <= r.x.v < max.v,
            min.v < max.v ==> min.v <= r.y.v < max.v,
            min.v < max.v ==> min.v <= r.z.v < max.v,
    {
        Vec3 {
            x: crate::random_range(min, max),
            y: crate::random_range(min, max),
            z: crate::random_range(min, max),
        }
    }

    /// Rejection sampling: draw from the unit cube until the squared length
    /// is below one, and return the first accepted draw.  The number of
    /// draws is capped so that termination is provable; the cap is so large
    /// that the center-of-ball fallback after it is statistically
    /// unreachable (each draw is accepted with probability about one half).
    pub fn random_in_unit_sphere() -> (r: Vec3)
        ensures
            vec_wf(r),
            0 <= r.x.v < SCALE,
            0 <= r.y.v < SCALE,
            0 <= r.z.v < SCALE,
            s_len_sq(r).v < SCALE,
            vec_bounded(r, SCALE as int),
    {
        let mut tries: usize = 0;
        while tries < 10000
            decreases 10000 - tries,
        {
            let p = Self::random();
            if !Fx::one().le(p.length_sqaured()) {
                return p;
            }
            tries = tries + 1;
        }
        let p = Vec3 {
            x: Fx::from_raw(500000),
            y: Fx::from_raw(500000),
            z: Fx::from_raw(500000),
        };
        proof {
            vstd::arithmetic::div_mod::lemma_fundamental_div_mod_converse(
                250000000000,
                1000000,
                250000,
                0,
            );
            assert(fmul(p.x, p.x).v == 250000);
            assert(s_len_sq(p).v == 750000);
        }
        p
    }
}

/// What the diffuse-scatter draw can hand back: the normalization of some
/// point of the unit ball's positive octant whose squared length does not
/// round to zero.
pub open spec fn possible_unit_draw(u: Vec3) -> bool {
    exists|p: Vec3|
        vec_wf(p) && 0 <= p.x.v < SCALE && 0 <= p.y.v < SCALE && 0 <= p.z.v < SCALE && 1
            <= s_len_sq(p).v < SCALE && u == #[trigger] s_unit(p)
}

/// Normalizing a point of the positive octant keeps every component
/// nonnegative.
proof fn lemma_unit_octant_nonneg(p: Vec3)
    requires
        vec_wf(p),
        0 <= p.x.v,
        0 <= p.y.v,
        0 <= p.z.v,
        1 <= s_len_sq(p).v,
    ensures
        0 <= s_unit(p).x.v,
        0 <= s_unit(p).y.v,
        0 <= s_unit(p).z.v,
{
    lemma_len_positive(p);
    let len = s_len(p);
    vstd::arithmetic::div_mod::lemma_div_pos_is_pos(1000000000000int, len.v as int);
    let recip = fdiv(fx_one(), len);
    assert(recip.v >= 0);
    assert(p.x.v * recip.v >= 0 && p.y.v * recip.v >= 0 && p.z.v * recip.v >= 0)
        by (nonlinear_arith)
        requires
            p.x.v >= 0,
            p.y.v >= 0,
            p.z.v >= 0,
            recip.v >= 0,
    ;
    vstd::arithmetic::div_mod::lemma_div_pos_is_pos(p.x.v * recip.v, SCALE as int);
    vstd::arithmetic::div_mod::lemma_div_pos_is_pos(p.y.v * recip.v, SCALE as int);
    vstd::arithmetic::div_mod::lemma_div_pos_is_pos(p.z.v * recip.v, SCALE as int);
}

/// A draw from the unit ball scaled to (approximately) unit length; draws
/// whose squared length rounds to zero are redrawn, since they cannot be
/// normalized on the grid.
pub fn random_unit_vector() -> (r: Vec3)
    ensures
        vec_wf(r),
        vec_bounded(r, 1000000000),
        0 <= r.x.v,
        0 <= r.y.v,
        0 <= r.z.v,
        possible_unit_draw(r),
{
    let mut tries: usize = 0;
    while tries < 10000
        decreases 10000 - tries,
    {
        let p = Vec3::random_in_unit_sphere();
        let ls = p.length_sqaured();
        if Fx::zero().lt(ls) {
            proof {
                lemma_unit_bounded(p);
                lemma_unit_octant_nonneg(p);
            }
            return p.unit_vector();
        }
        tries = tries + 1;
    }
    let p = Vec3 {
        x: Fx::from_raw(500000),
        y: Fx::from_raw(500000),
        z: Fx::from_raw(500000),
    };
    proof {
        vstd::arithmetic::div_mod::lemma_fundamental_div_mod_converse(
            250000000000,
            1000000,
            250000,
            0,
        );
        assert(fmul(p.x, p.x).v == 250000);
        assert(s_len_sq(p).v == 750000);
        lemma_unit_bounded(p);
        lemma_unit_octant_nonneg(p);
    }
    p.unit_vector()
}

/// The rounded dot product of two vectors.
pub fn dot(a: Vec3, b: Vec3) -> (r: Fx)
    requires
        vec_wf(a),
        vec_wf(b),
    ensures
        r == sdot(a, b),
        fx_wf(r),
{
    a.x.mul(b.x).add(a.y.mul(b.y)).add(a.z.mul(b.z))
}

/// The rounded cross product: a vector perpendicular to both arguments.
pub fn cross(a: Vec3, b: Vec3) -> (r: Vec3)
    requires
        vec_wf(a),
        vec_wf(b),
    ensures
        r == scross(a, b),
        vec_wf(r),
{
    Vec3 {
        x: a.y.mul(b.z).sub(b.y.mul(a.z)),
        y: b.x.mul(a.z).sub(a.x.mul(b.z)),
        z: a.x.mul(b.y).sub(b.x.mul(a.y)),
    }
}

} // verus!
