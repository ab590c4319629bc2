//! Fixed-point scalar arithmetic.
//!
//! Every scalar of the renderer is a signed 64-bit count of 1/65536 units.
//! All rounding is truncation toward zero, and every executable operation
//! carries an exact contract phrased with the spec functions below.

use vstd::prelude::*;

verus! {

/// Number of raw units per whole unit.
pub const SCALE: i64 = 65536;

/// Absolute value over the mathematical integers.
pub open spec fn sabs(a: int) -> int {
    if a < 0 {
        -a
    } else {
        a
    }
}

/// Truncated (round-toward-zero) integer division: the rounding of every
/// fixed-point operation in this crate. Unspecified when `b == 0`.
pub open spec fn tdiv(a: int, b: int) -> int {
    if a == 0 {
        0
    } else if a > 0 && b > 0 {
        a / b
    } else if a < 0 && b < 0 {
        (a * -1) / (b * -1)
    } else if a < 0 {
        ((a * -1) / b) * -1
    } else {
        (a / (b * -1)) * -1
    }
}

/// Raw result of the fixed-point product of two raw values.
pub open spec fn fmul(a: int, b: int) -> int {
    tdiv(a * b, SCALE as int)
}

/// Raw result of the fixed-point quotient of two raw values.
pub open spec fn fdiv(a: int, b: int) -> int {
    tdiv(a * (SCALE as int), b)
}

/// Floor of the square root of a nonnegative integer.
pub open spec fn sqrt_floor(n: int) -> int
    decreases n,
{
    if n <= 0 {
        0
    } else {
        let p = sqrt_floor(n - 1);
        if (p + 1) * (p + 1) <= n {
            p + 1
        } else {
            p
        }
    }
}

/// Whether a mathematical integer fits the raw representation.
pub open spec fn in_raw(x: int) -> bool {
    i64::MIN <= x <= i64::MAX
}

/// Truncated division shrinks magnitudes: a bound on the scaled numerator
/// bounds the quotient.
pub proof fn lemma_tdiv_bounds(a: int, b: int, c: int)
    requires
        b >= 1,
        c >= 0,
        -(c * b) <= a <= c * b,
    ensures
        -c <= tdiv(a, b) <= c,
{
    if a > 0 {
        assert(a / b >= 0) by {
            vstd::arithmetic::div_mod::lemma_div_pos_is_pos(a, b);
        }
        assert(a / b <= c) by {
            vstd::arithmetic::div_mod::lemma_div_is_ordered(a, c * b, b);
            vstd::arithmetic::div_mod::lemma_div_by_multiple(c, b);
        }
    } else if a < 0 {
        let m = a * -1;
        assert(m / b >= 0) by {
            vstd::arithmetic::div_mod::lemma_div_pos_is_pos(m, b);
        }
        assert(m / b <= c) by {
            vstd::arithmetic::div_mod::lemma_div_is_ordered(m, c * b, b);
            vstd::arithmetic::div_mod::lemma_div_by_multiple(c, b);
        }
    }
}

/// Exact case: when the divisor divides the numerator, truncated division
/// agrees with the true quotient.
pub proof fn lemma_tdiv_exact(a: int, b: int)
    requires
        b >= 1,
        a % b == 0,
    ensures
        tdiv(a, b) * b == a,
{
    if a > 0 {
        vstd::arithmetic::div_mod::lemma_fundamental_div_mod(a, b);
        let q = a / b;
        assert(q * b == b * q) by (nonlinear_arith);
    } else if a < 0 {
        let m = a * -1;
        let q = a / b;
        vstd::arithmetic::div_mod::lemma_fundamental_div_mod(a, b);
        assert(a == b * q);
        assert(m == (-q) * b) by (nonlinear_arith)
            requires
                a == b * q,
                m == a * -1,
        ;
        vstd::arithmetic::div_mod::lemma_mod_multiples_basic(-q, b);
        assert(m % b == 0);
        vstd::arithmetic::div_mod::lemma_fundamental_div_mod(m, b);
        assert(m == b * (m / b));
        assert(tdiv(a, b) == -(m / b));
        assert((-(m / b)) * b == -(b * (m / b))) by (nonlinear_arith);
    }
}

/// Truncated division by a positive divisor is monotone in the numerator.
pub proof fn lemma_tdiv_mono(a1: int, a2: int, b: int)
    requires
        b >= 1,
        a1 <= a2,
    ensures
        tdiv(a1, b) <= tdiv(a2, b),
{
    if a1 > 0 {
        vstd::arithmetic::div_mod::lemma_div_is_ordered(a1, a2, b);
        vstd::arithmetic::div_mod::lemma_div_pos_is_pos(a1, b);
    } else if a1 == 0 {
        if a2 > 0 {
            vstd::arithmetic::div_mod::lemma_div_pos_is_pos(a2, b);
        }
    } else {
        // a1 < 0
        if a2 >= 0 {
            vstd::arithmetic::div_mod::lemma_div_pos_is_pos(a1 * -1, b);
            if a2 > 0 {
                vstd::arithmetic::div_mod::lemma_div_pos_is_pos(a2, b);
            }
        } else {
            vstd::arithmetic::div_mod::lemma_div_is_ordered(a2 * -1, a1 * -1, b);
        }
    }
}

pub proof fn lemma_sqrt_floor_bounds(n: int)
    requires
        n >= 0,
    ensures
        sqrt_floor(n) >= 0,
        sqrt_floor(n) * sqrt_floor(n) <= n,
        n < (sqrt_floor(n) + 1) * (sqrt_floor(n) + 1),
    decreases n,
{
    if n > 0 {
        lemma_sqrt_floor_bounds(n - 1);
        let p = sqrt_floor(n - 1);
        if (p + 1) * (p + 1) <= n {
            assert(n == (p + 1) * (p + 1)) by (nonlinear_arith)
                requires
                    p * p <= n - 1,
                    n - 1 < (p + 1) * (p + 1),
                    (p + 1) * (p + 1) <= n,
            ;
            assert((p + 1) * (p + 1) < (p + 2) * (p + 2)) by (nonlinear_arith)
                requires
                    p >= 0,
            ;
        }
    }
}

/// The floor square root is the unique nonnegative `r` with
/// `r * r <= n < (r + 1) * (r + 1)`.
pub proof fn lemma_sqrt_floor_unique(n: int, r: int)
    requires
        n >= 0,
        r >= 0,
        r * r <= n,
        n < (r + 1) * (r + 1),
    ensures
        r == sqrt_floor(n),
{
    lemma_sqrt_floor_bounds(n);
    let s = sqrt_floor(n);
    if r < s {
        assert((r + 1) * (r + 1) <= s * s) by (nonlinear_arith)
            requires
                0 <= r,
                r < s,
        ;
    }
    if s < r {
        assert((s + 1) * (s + 1) <= r * r) by (nonlinear_arith)
            requires
                0 <= s,
                s < r,
        ;
    }
}

/// Negating the numerator negates the truncated quotient.
pub proof fn lemma_tdiv_odd(a: int, b: int)
    requires
        b >= 1,
    ensures
        tdiv(-a, b) == -tdiv(a, b),
{
}

/// Products of bounded factors are bounded.
pub proof fn lemma_mul_bounds(u: int, v: int, cu: int, cv: int)
    requires
        -cu <= u <= cu,
        -cv <= v <= cv,
    ensures
        -(cu * cv) <= u * v <= cu * cv,
{
    assert(-(cu * cv) <= u * v <= cu * cv) by (nonlinear_arith)
        requires
            -cu <= u <= cu,
            -cv <= v <= cv,
    ;
}

/// Fixed-point products of bounded factors are bounded by the scaled-down
/// product of the bounds.
pub proof fn lemma_fmul_bounds(u: int, v: int, cu: int, cv: int)
    requires
        -cu <= u <= cu,
        -cv <= v <= cv,
    ensures
        -tdiv(cu * cv, SCALE as int) <= fmul(u, v) <= tdiv(cu * cv, SCALE as int),
        tdiv(cu * cv, SCALE as int) >= 0,
{
    lemma_mul_bounds(u, v, cu, cv);
    lemma_tdiv_mono(u * v, cu * cv, SCALE as int);
    lemma_tdiv_mono(-(cu * cv), u * v, SCALE as int);
    lemma_tdiv_odd(cu * cv, SCALE as int);
    if cu * cv > 0 {
        vstd::arithmetic::div_mod::lemma_div_pos_is_pos(cu * cv, SCALE as int);
    }
}

/// Scaling down an exact multiple of the scale recovers the factor.
pub proof fn lemma_tdiv_mul_exact(q: int)
    ensures
        tdiv(q * (SCALE as int), SCALE as int) == q,
{
    vstd::arithmetic::div_mod::lemma_mod_multiples_basic(q, SCALE as int);
    lemma_tdiv_exact(q * (SCALE as int), SCALE as int);
    assert(tdiv(q * (SCALE as int), SCALE as int) == q) by (nonlinear_arith)
        requires
            tdiv(q * (SCALE as int), SCALE as int) * (SCALE as int) == q * (SCALE as int),
            (SCALE as int) == 65536,
    ;
}

/// Fixed-point quotients are bounded when the scaled numerator is bounded by
/// `c` times the divisor's magnitude `m`.
pub proof fn lemma_fdiv_bounds(u: int, k: int, m: int, c: int)
    requires
        m >= 1,
        k == m || k == -m,
        c >= 0,
        -(c * m) <= u * (SCALE as int) <= c * m,
    ensures
        -c <= fdiv(u, k) <= c,
{
    lemma_tdiv_bounds(u * (SCALE as int), m, c);
    if k != m {
        assert(tdiv(u * (SCALE as int), k) == -tdiv(u * (SCALE as int), m));
    }
}

/// A coarse range bound on fixed-point quotients by a positive divisor.
pub proof fn lemma_fdiv_coarse(x: int, k: int)
    requires
        k >= 1,
    ensures
        sabs(fdiv(x, k)) <= sabs(x) * (SCALE as int),
{
    let c = sabs(x) * (SCALE as int);
    assert(c <= c * k && -(c * k) <= -c) by (nonlinear_arith)
        requires
            k >= 1,
            c >= 0,
    ;
    assert(-c <= x * (SCALE as int) <= c);
    lemma_tdiv_bounds(x * (SCALE as int), k, c);
}

/// Truncated division on machine integers, the executable twin of `tdiv`.
fn tdiv_i128(a: i128, b: i128) -> (r: i128)
    requires
        b != 0,
        a != i128::MIN,
    ensures
        r as int == tdiv(a as int, b as int),
        sabs(r as int) <= sabs(a as int),
{
    proof {
        let aa = if (a as int) >= 0 {
            a as int
        } else {
            (a as int) * -1
        };
        let bb = if (b as int) >= 0 {
            b as int
        } else {
            (b as int) * -1
        };
        assert(aa * bb >= aa) by (nonlinear_arith)
            requires
                aa >= 0,
                bb >= 1,
        ;
        lemma_tdiv_bounds(a as int, bb, aa);
        if (b as int) < 0 {
            assert(tdiv(a as int, b as int) == -tdiv(a as int, bb));
        }
    }
    match a.checked_div(b) {
        Some(q) => q,
        None => {
            proof {
                assert(false);
            }
            0
        },
    }
}

/// A fixed-point scalar: `raw` counts 1/65536 units.
#[derive(Clone, Copy, PartialEq, Eq, Structural, Debug)]
pub struct Fx {
    pub raw: i64,
}

impl View for Fx {
    type V = int;

    open spec fn view(&self) -> int {
        self.raw as int
    }
}

impl Fx {
    /// The scalar with the given raw count of 1/65536 units.
    pub fn from_raw(raw: i64) -> (r: Fx)
        ensures
            r@ == raw as int,
    {
        Fx { raw }
    }

    /// The scalar equal to the given whole number.
    pub fn from_int(n: i64) -> (r: Fx)
        requires
            -140737488355327 <= n <= 140737488355327,
        ensures
            r@ == n * (SCALE as int),
    {
        Fx { raw: n * SCALE }
    }

    pub fn zero() -> (r: Fx)
        ensures
            r@ == 0,
    {
        Fx { raw: 0 }
    }

    pub fn one() -> (r: Fx)
        ensures
            r@ == SCALE as int,
    {
        Fx { raw: SCALE }
    }

    pub fn add(self, o: Fx) -> (r: Fx)
        requires
            in_raw(self@ + o@),
        ensures
            r@ == self@ + o@,
    {
        Fx { raw: self.raw + o.raw }
    }

    pub fn sub(self, o: Fx) -> (r: Fx)
        requires
            in_raw(self@ - o@),
        ensures
            r@ == self@ - o@,
    {
        Fx { raw: self.raw - o.raw }
    }

    pub fn neg(self) -> (r: Fx)
        requires
            self@ != i64::MIN,
        ensures
            r@ == -self@,
    {
        Fx { raw: -self.raw }
    }

    /// Fixed-point product, truncated toward zero.
    pub fn mul(self, o: Fx) -> (r: Fx)
        requires
            in_raw(fmul(self@, o@)),
        ensures
            r@ == fmul(self@, o@),
    {
        let p: i128 = (self.raw as i128) * (o.raw as i128);
        let q = tdiv_i128(p, SCALE as i128);
        proof {
            lemma_tdiv_bounds(p as int, SCALE as int, sabs(p as int));
        }
        Fx { raw: q as i64 }
    }

    /// Fixed-point quotient, truncated toward zero.
    pub fn div(self, o: Fx) -> (r: Fx)
        requires
            o@ != 0,
            in_raw(fdiv(self@, o@)),
        ensures
            r@ == fdiv(self@, o@),
    {
        let p: i128 = (self.raw as i128) * (SCALE as i128);
        let q = tdiv_i128(p, o.raw as i128);
        Fx { raw: q as i64 }
    }

    /// Truncated division of the raw value by a positive integer, used for
    /// the factorial denominators of the polynomial approximations.
    pub fn div_int(self, n: i64) -> (r: Fx)
        requires
            n >= 1,
        ensures
            r@ == tdiv(self@, n as int),
    {
        proof {
            assert(sabs(self@) * (n as int) >= sabs(self@)) by (nonlinear_arith)
                requires
                    n as int >= 1,
                    sabs(self@) >= 0,
            ;
            lemma_tdiv_bounds(self@, n as int, sabs(self@));
        }
        let q = tdiv_i128(self.raw as i128, n as i128);
        Fx { raw: q as i64 }
    }

    pub fn abs(self) -> (r: Fx)
        requires
            self@ != i64::MIN,
        ensures
            r@ == sabs(self@),
    {
        if self.raw < 0 {
            Fx { raw: -self.raw }
        } else {
            self
        }
    }

    /// Floor square root in fixed point: the raw result is the floor of the
    /// square root of `raw * SCALE`, so that exact squares take exact roots.
    pub fn sqrt(self) -> (r: Fx)
        requires
            self@ >= 0,
        ensures
            r@ == sqrt_floor(self@ * (SCALE as int)),
            r@ >= 0,
    {
        let x: u128 = (self.raw as u128) * (SCALE as u128);
        let r = isqrt_u128(x);
        proof {
            lemma_sqrt_floor_bounds(x as int);
            assert(sqrt_floor(x as int) < 0x10000000000i64 as int) by (nonlinear_arith)
                requires
                    x as int <= 0x7fffffffffffffffi64 as int * (SCALE as int),
                    sqrt_floor(x as int) >= 0,
                    sqrt_floor(x as int) * sqrt_floor(x as int) <= x as int,
            ;
        }
        Fx { raw: r as i64 }
    }
}

/// Floor square root of an unsigned 128-bit integer, by bisection.
fn isqrt_u128(x: u128) -> (r: u128)
    requires
        x < 0x10000000000000000000000000u128,
    ensures
        r as int == sqrt_floor(x as int),
{
    let mut lo: u128 = 0;
    let mut hi: u128 = if x + 1 < 0x10000000000000000u128 {
        x + 1
    } else {
        0x10000000000000000u128
    };
    proof {
        if hi as int == x + 1 {
            assert((x + 1) * (x + 1) > x) by (nonlinear_arith)
                requires
                    x as int >= 0,
            ;
        } else {
            assert(x < hi as int * hi as int);
        }
    }
    while lo + 1 < hi
        invariant
            0 <= lo as int,
            lo < hi,
            hi as int <= 0x10000000000000000,
            lo as int * lo as int <= x as int,
            (x as int) < hi as int * hi as int,
        decreases hi - lo,
    {
        let mid = lo + (hi - lo) / 2;
        proof {
            let ghost m = mid as int;
            assert(m * m < 0x10000000000000000 * 0x10000000000000000) by (nonlinear_arith)
                requires
                    0 <= m < 0x10000000000000000,
            ;
            assert(m * m <= u128::MAX);
        }
        let sq = mid * mid;
        if sq <= x {
            lo = mid;
        } else {
            hi = mid;
        }
    }
    proof {
        lemma_sqrt_floor_unique(x as int, lo as int);
    }
    lo
}

} // verus!
