//! Fixed-point scalars: the number grid under all geometry and shading math.
//!
//! A `Fx` holds a real value as a count of millionths (`v == value * SCALE`).
//! Every operation clips its result into `[-LIM, LIM]`, so all operations are
//! total on well-formed values and every result is stated exactly: `mul` and
//! `div` truncate toward zero, `sqrt` rounds down.
use vstd::prelude::*;

verus! {

/// Number of grid steps per unit: values are counts of millionths.
pub const SCALE: i128 = 1000000;

/// Saturation bound of the grid: every stored raw value stays in `[-LIM, LIM]`.
pub const LIM: i128 = 4611686018427387904;

/// Magnitude bound on ray directions the integrator accepts: far beyond any
/// scene coordinate, yet small enough that no product leaves the grid.
pub const DMAX: i128 = 1099511627776;

/// A real value on the millionths grid: represents `v / SCALE`.
#[derive(Clone, Copy, PartialEq, Eq, Structural, Debug)]
pub struct Fx {
    pub v: i128,
}

/// Magnitude of a mathematical integer.
pub open spec fn mag(a: int) -> int {
    if a >= 0 {
        a
    } else {
        -a
    }
}

/// Saturate a mathematical integer into the representable range.
pub open spec fn clip(x: int) -> int {
    if x > LIM {
        LIM as int
    } else if x < -(LIM as int) {
        -(LIM as int)
    } else {
        x
    }
}

/// Division truncating toward zero, as the executable operations compute it.
pub open spec fn tdiv(a: int, b: int) -> int
    recommends
        b != 0,
{
    if (a >= 0) == (b >= 0) {
        mag(a) / mag(b)
    } else {
        -(mag(a) / mag(b))
    }
}

/// `r` is the square root of `n`, rounded down.
pub open spec fn is_sqrt_floor(n: int, r: int) -> bool {
    &&& 0 <= r
    &&& r * r <= n
    &&& n < (r + 1) * (r + 1)
}

/// The square root of `n`, rounded down.
pub open spec fn sqrt_floor(n: int) -> int {
    choose|r: int| is_sqrt_floor(n, r)
}

/// The grid point for the value one.
pub open spec fn fx_one() -> Fx {
    Fx { v: SCALE }
}

/// A raw value the grid can store.
pub open spec fn fx_wf(a: Fx) -> bool {
    -(LIM as int) <= a.v <= LIM as int
}

/// Grid addition: exact sum, saturated.
pub open spec fn fadd(a: Fx, b: Fx) -> Fx {
    Fx { v: clip(a.v + b.v) as i128 }
}

/// Grid subtraction: exact difference, saturated.
pub open spec fn fsub(a: Fx, b: Fx) -> Fx {
    Fx { v: clip(a.v - b.v) as i128 }
}

/// Grid negation: exact.
pub open spec fn fneg(a: Fx) -> Fx {
    Fx { v: (-a.v) as i128 }
}

/// Grid multiplication: the exact product truncated back onto the grid.
pub open spec fn fmul(a: Fx, b: Fx) -> Fx {
    Fx { v: clip(tdiv(a.v * b.v, SCALE as int)) as i128 }
}

/// Grid division: the exact quotient truncated onto the grid.
pub open spec fn fdiv(a: Fx, b: Fx) -> Fx
    recommends
        b.v != 0,
{
    Fx { v: clip(tdiv(a.v * (SCALE as int), b.v as int)) as i128 }
}

/// Grid square root (of a nonnegative value): rounded down onto the grid.
pub open spec fn fsqrt(a: Fx) -> Fx
    recommends
        a.v >= 0,
{
    Fx { v: sqrt_floor(a.v * (SCALE as int)) as i128 }
}

/// Every pair of square-root candidates for the same radicand agrees.
pub proof fn lemma_sqrt_floor_is(n: int, r: int)
    requires
        is_sqrt_floor(n, r),
    ensures
        sqrt_floor(n) == r,
{
    assert(is_sqrt_floor(n, sqrt_floor(n))) by {
        assert(exists|q: int| is_sqrt_floor(n, q)) by {
            assert(is_sqrt_floor(n, r));
        }
    }
    let q = sqrt_floor(n);
    if q < r {
        assert((q + 1) * (q + 1) <= r * r) by (nonlinear_arith)
            requires
                0 <= q,
                q + 1 <= r,
        ;
    }
    if q > r {
        assert((r + 1) * (r + 1) <= q * q) by (nonlinear_arith)
            requires
                0 <= r,
                r + 1 <= q,
        ;
    }
}

/// The rounded-down square root exists for every nonnegative radicand.
pub proof fn lemma_sqrt_floor_exists(n: int)
    requires
        n >= 0,
    ensures
        is_sqrt_floor(n, sqrt_floor(n)),
    decreases n,
{
    if n == 0 {
        assert(is_sqrt_floor(0, 0));
        lemma_sqrt_floor_is(0, 0);
    } else {
        lemma_sqrt_floor_exists(n - 1);
        let p = sqrt_floor(n - 1);
        if (p + 1) * (p + 1) <= n {
            assert(n < (p + 2) * (p + 2)) by (nonlinear_arith)
                requires
                    0 <= p,
                    n - 1 < (p + 1) * (p + 1),
            ;
            assert(is_sqrt_floor(n, p + 1));
            lemma_sqrt_floor_is(n, p + 1);
        } else {
            assert(is_sqrt_floor(n, p));
            lemma_sqrt_floor_is(n, p);
        }
    }
}

/// Saturation never grows a magnitude.
pub proof fn lemma_clip_mag(x: int)
    ensures
        mag(clip(x)) <= mag(x),
{
}

/// A magnitude bound for truncated grid products: bounds on both factors
/// bound the rounded product.
pub proof fn lemma_fmul_mag(a: Fx, b: Fx, ma: int, mb: int)
    requires
        mag(a.v as int) <= ma,
        mag(b.v as int) <= mb,
    ensures
        mag(fmul(a, b).v as int) <= (ma * mb) / (SCALE as int),
{
    let ab = a.v * b.v;
    assert(mag(ab) <= ma * mb) by (nonlinear_arith)
        requires
            mag(a.v as int) <= ma,
            mag(b.v as int) <= mb,
            ab == a.v * b.v,
            mag(a.v as int) == if a.v >= 0 { a.v as int } else { -(a.v as int) },
            mag(b.v as int) == if b.v >= 0 { b.v as int } else { -(b.v as int) },
            mag(ab) == if ab >= 0 { ab } else { -ab },
    ;
    vstd::arithmetic::div_mod::lemma_div_pos_is_pos(mag(ab), SCALE as int);
    vstd::arithmetic::div_mod::lemma_div_is_ordered(mag(ab), ma * mb, SCALE as int);
    assert(mag(tdiv(ab, SCALE as int)) == mag(ab) / (SCALE as int));
    lemma_clip_mag(tdiv(ab, SCALE as int));
}

/// Truncating division never moves its result further than one divisor
/// from the exact quotient.
pub proof fn lemma_tdiv_err(p: int, d: int)
    requires
        d > 0,
    ensures
        mag(tdiv(p, d) * d - p) < d,
{
    vstd::arithmetic::div_mod::lemma_fundamental_div_mod(mag(p), d);
    let q = mag(p) / d;
    vstd::arithmetic::div_mod::lemma_div_pos_is_pos(mag(p), d);
    if p >= 0 {
        assert(tdiv(p, d) == q);
        assert(q * d - p == -(p % d)) by {
            assert(p == d * q + p % d);
            assert(q * d == d * q) by (nonlinear_arith);
        }
    } else {
        assert(tdiv(p, d) == -q);
        assert((-q) * d - p == (mag(p) % d)) by {
            assert(mag(p) == d * q + mag(p) % d);
            assert((-q) * d == -(d * q)) by (nonlinear_arith);
        }
    }
}

/// Truncating division is monotone in the dividend.
pub proof fn lemma_tdiv_monotone(x: int, y: int, d: int)
    requires
        x <= y,
        d > 0,
    ensures
        tdiv(x, d) <= tdiv(y, d),
{
    vstd::arithmetic::div_mod::lemma_div_pos_is_pos(mag(x), d);
    vstd::arithmetic::div_mod::lemma_div_pos_is_pos(mag(y), d);
    if x >= 0 {
        vstd::arithmetic::div_mod::lemma_div_is_ordered(x, y, d);
    } else if y < 0 {
        vstd::arithmetic::div_mod::lemma_div_is_ordered(-y, -x, d);
    }
}

/// Multiplying by one on the grid is the identity.
pub proof fn lemma_fmul_one(a: Fx)
    requires
        fx_wf(a),
    ensures
        fmul(a, fx_one()) == a,
        fmul(fx_one(), a) == a,
{
    vstd::arithmetic::div_mod::lemma_div_by_multiple(mag(a.v as int), SCALE as int);
    assert(mag(a.v * SCALE) == mag(a.v as int) * (SCALE as int)) by (nonlinear_arith)
        requires
            SCALE == 1000000,
            mag(a.v as int) == if a.v >= 0 { a.v as int } else { -(a.v as int) },
            mag(a.v * SCALE) == if a.v * SCALE >= 0 { a.v * (SCALE as int) } else { -(a.v * (SCALE as int)) },
    ;
    assert(tdiv(a.v * SCALE, SCALE as int) == a.v);
    assert((SCALE as int) * a.v == a.v * (SCALE as int)) by (nonlinear_arith);
    assert(mag((SCALE as int) * a.v) == mag(a.v as int) * (SCALE as int));
    assert(tdiv((SCALE as int) * a.v, SCALE as int) == a.v);
}

/// Multiplying by minus one on the grid is exact negation.
pub proof fn lemma_fmul_neg_one(a: Fx)
    requires
        fx_wf(a),
    ensures
        fmul(a, Fx { v: (-SCALE) as i128 }).v == -a.v,
{
    vstd::arithmetic::div_mod::lemma_div_by_multiple(mag(a.v as int), SCALE as int);
    let p = a.v * ((-SCALE) as int);
    assert(p == -(a.v * (SCALE as int))) by (nonlinear_arith)
        requires
            p == a.v * ((-SCALE) as int),
            SCALE == 1000000,
    ;
    assert(mag(p) == mag(a.v as int) * (SCALE as int)) by (nonlinear_arith)
        requires
            p == -(a.v * (SCALE as int)),
            SCALE == 1000000,
            mag(p) == if p >= 0 { p } else { -p },
            mag(a.v as int) == if a.v >= 0 { a.v as int } else { -(a.v as int) },
    ;
    assert(tdiv(p, SCALE as int) == -a.v);
}

/// Saturation is monotone.
pub proof fn lemma_clip_monotone(x: int, y: int)
    requires
        x <= y,
    ensures
        clip(x) <= clip(y),
{
}

/// Saturate a raw count into the representable range.
fn clip_exec(x: i128) -> (r: i128)
    ensures
        r == clip(x as int),
{
    if x > LIM {
        LIM
    } else if x < -LIM {
        -LIM
    } else {
        x
    }
}

/// Rounded-down square root of a machine integer below `2^126`.
fn isqrt_u128(n: u128) -> (r: u128)
    requires
        (n as int) < 0x40000000000000000000000000000000,
    ensures
        is_sqrt_floor(n as int, r as int),
{
    let mut lo: u128 = 0;
    let mut hi: u128 = 0x8000000000000000;
    assert((hi as int) * (hi as int) == 0x40000000000000000000000000000000) by (nonlinear_arith)
        requires
            hi == 0x8000000000000000u128,
    ;
    while hi - lo > 1
        invariant
            lo < hi <= 0x8000000000000000,
            (lo as int) * (lo as int) <= n as int,
            (n as int) < (hi as int) * (hi as int),
        decreases hi - lo,
    {
        let mid = lo + (hi - lo) / 2;
        assert((mid as int) * (mid as int) < 0x40000000000000000000000000000000) by (nonlinear_arith)
            requires
                mid < 0x8000000000000000u128,
        ;
        if mid * mid <= n {
            lo = mid;
        } else {
            hi = mid;
        }
    }
    lo
}

impl Fx {
    /// The grid point for the integer `i`.
    pub fn from_int(i: i64) -> (r: Fx)
        ensures
            r.v == clip(i * SCALE),
            fx_wf(r),
    {
        let w: i128 = (i as i128) * SCALE;
        Fx { v: clip_exec(w) }
    }

    /// The grid point holding `raw` millionths.
    pub fn from_raw(raw: i128) -> (r: Fx)
        ensures
            r.v == clip(raw as int),
            fx_wf(r),
    {
        Fx { v: clip_exec(raw) }
    }

    /// The value zero.
    pub fn zero() -> (r: Fx)
        ensures
            r.v == 0,
            fx_wf(r),
    {
        Fx { v: 0 }
    }

    /// The largest value the grid can hold: stands in for "no upper bound".
    pub fn max_val() -> (r: Fx)
        ensures
            r.v == LIM,
            fx_wf(r),
    {
        Fx { v: LIM }
    }

    /// The value one.
    pub fn one() -> (r: Fx)
        ensures
            r.v == SCALE,
            fx_wf(r),
    {
        Fx { v: SCALE }
    }

    /// Exact sum, saturated.
    pub fn add(self, rhs: Fx) -> (r: Fx)
        requires
            fx_wf(self),
            fx_wf(rhs),
        ensures
            r == fadd(self, rhs),
            fx_wf(r),
    {
        Fx { v: clip_exec(self.v + rhs.v) }
    }

    /// Exact difference, saturated.
    pub fn sub(self, rhs: Fx) -> (r: Fx)
        requires
            fx_wf(self),
            fx_wf(rhs),
        ensures
            r == fsub(self, rhs),
            fx_wf(r),
    {
        Fx { v: clip_exec(self.v - rhs.v) }
    }

    /// Exact negation.
    pub fn neg(self) -> (r: Fx)
        requires
            fx_wf(self),
        ensures
            r == fneg(self),
            fx_wf(r),
    {
        Fx { v: -self.v }
    }

    /// Product truncated onto the grid, saturated.
    pub fn mul(self, rhs: Fx) -> (r: Fx)
        requires
            fx_wf(self),
            fx_wf(rhs),
        ensures
            r == fmul(self, rhs),
            fx_wf(r),
    {
        proof {
            assert(-(LIM as int) * (LIM as int) <= self.v * rhs.v <= (LIM as int) * (LIM as int))
                by (nonlinear_arith)
                requires
                    -(LIM as int) <= self.v <= LIM as int,
                    -(LIM as int) <= rhs.v <= LIM as int,
            ;
            assert((4611686018427387904 as int) * (4611686018427387904 as int)
                < 0x80000000000000000000000000000000) by (nonlinear_arith);
        }
        let p: i128 = self.v * rhs.v;
        let m: u128 = if p >= 0 {
            p as u128
        } else {
            (-p) as u128
        };
        let q: u128 = m / (SCALE as u128);
        assert(q == mag(p as int) / (SCALE as int));
        let qi: i128 = q as i128;
        let t: i128 = if (self.v >= 0) == (rhs.v >= 0) {
            qi
        } else {
            -qi
        };
        proof {
            if (self.v >= 0) == (rhs.v >= 0) {
                assert(p >= 0) by (nonlinear_arith)
                    requires
                        (self.v >= 0) == (rhs.v >= 0),
                        p == self.v * rhs.v,
                ;
            } else {
                assert(p <= 0) by (nonlinear_arith)
                    requires
                        (self.v >= 0) != (rhs.v >= 0),
                        p == self.v * rhs.v,
                ;
            }
            assert(t == tdiv(self.v * rhs.v, SCALE as int));
        }
        Fx { v: clip_exec(t) }
    }

    /// Quotient truncated onto the grid, saturated.
    pub fn div(self, rhs: Fx) -> (r: Fx)
        requires
            fx_wf(self),
            fx_wf(rhs),
            rhs.v != 0,
        ensures
            r == fdiv(self, rhs),
            fx_wf(r),
    {
        proof {
            assert(-(LIM as int) * 1000000 <= self.v * (SCALE as int) <= (LIM as int) * 1000000)
                by (nonlinear_arith)
                requires
                    -(LIM as int) <= self.v <= LIM as int,
                    SCALE == 1000000,
            ;
            assert((LIM as int) * 1000000 < 0x80000000000000000000000000000000) by (nonlinear_arith);
            assert(self.v >= 0 ==> self.v * (SCALE as int) >= 0) by (nonlinear_arith);
            assert(self.v <= 0 ==> self.v * (SCALE as int) <= 0) by (nonlinear_arith);
        }
        let p: i128 = self.v * SCALE;
        let m: u128 = if p >= 0 {
            p as u128
        } else {
            (-p) as u128
        };
        let d: u128 = if rhs.v >= 0 {
            rhs.v as u128
        } else {
            (-rhs.v) as u128
        };
        let q: u128 = m / d;
        proof {
            assert(q == mag(p as int) / mag(rhs.v as int));
            assert(mag(p as int) / mag(rhs.v as int) <= mag(p as int)) by (nonlinear_arith)
                requires
                    mag(rhs.v as int) >= 1,
                    mag(p as int) >= 0,
            ;
        }
        let qi: i128 = q as i128;
        let t: i128 = if (self.v >= 0) == (rhs.v >= 0) {
            qi
        } else {
            -qi
        };
        proof {
            if self.v >= 0 {
                assert(p >= 0);
            } else {
                assert(p <= 0);
            }
            assert(t == tdiv(p as int, rhs.v as int));
        }
        Fx { v: clip_exec(t) }
    }

    /// Square root of a nonnegative value, rounded down onto the grid.
    pub fn sqrt(self) -> (r: Fx)
        requires
            fx_wf(self),
            self.v >= 0,
        ensures
            r == fsqrt(self),
            fx_wf(r),
            r.v >= 0,
    {
        proof {
            assert(self.v * (SCALE as int) <= (LIM as int) * 1000000) by (nonlinear_arith)
                requires
                    0 <= self.v <= LIM as int,
                    SCALE == 1000000,
            ;
            assert((LIM as int) * 1000000 < 0x40000000000000000000000000000000) by (nonlinear_arith);
        }
        let n: u128 = (self.v as u128) * (SCALE as u128);
        assert(n as int == self.v * SCALE);
        let s: u128 = isqrt_u128(n);
        proof {
            lemma_sqrt_floor_is(n as int, s as int);
            assert((s as int) * (s as int) <= n as int);
            assert(s < 3000000000000u128) by (nonlinear_arith)
                requires
                    (s as int) * (s as int) <= n as int,
                    (n as int) <= 4611686018427387904 * 1000000,
            ;
        }
        Fx { v: s as i128 }
    }

    /// Comparison of the underlying grid values.
    pub fn le(self, rhs: Fx) -> (r: bool)
        ensures
            r == (self.v <= rhs.v),
    {
        self.v <= rhs.v
    }

    /// Strict comparison of the underlying grid values.
    pub fn lt(self, rhs: Fx) -> (r: bool)
        ensures
            r == (self.v < rhs.v),
    {
        self.v < rhs.v
    }
}

} // verus!
