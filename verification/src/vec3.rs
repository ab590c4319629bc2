//! Three-component fixed-point vectors, used as points, directions and
//! colors. Every operation carries an exact contract over the spec-level
//! mirror `V3` of raw component values.

use vstd::prelude::*;
use crate::fixed::{
    Fx, SCALE, fmul, fdiv, tdiv, sabs, in_raw, sqrt_floor, lemma_tdiv_bounds, lemma_tdiv_mono,
    lemma_tdiv_exact, lemma_sqrt_floor_bounds, lemma_sqrt_floor_unique,
};
use crate::utils::{RandomStream, rand_scalar_in};

verus! {

/// Spec-level mirror of a vector: unbounded integer raw components.
pub ghost struct V3 {
    pub x: int,
    pub y: int,
    pub z: int,
}

pub open spec fn vadd(a: V3, b: V3) -> V3 {
    V3 { x: a.x + b.x, y: a.y + b.y, z: a.z + b.z }
}

pub open spec fn vsub(a: V3, b: V3) -> V3 {
    V3 { x: a.x - b.x, y: a.y - b.y, z: a.z - b.z }
}

pub open spec fn vneg(a: V3) -> V3 {
    V3 { x: -a.x, y: -a.y, z: -a.z }
}

/// Componentwise fixed-point product.
pub open spec fn vcmul(a: V3, b: V3) -> V3 {
    V3 { x: fmul(a.x, b.x), y: fmul(a.y, b.y), z: fmul(a.z, b.z) }
}

/// Scaling by a fixed-point factor with raw value `k`.
pub open spec fn vscale(k: int, a: V3) -> V3 {
    V3 { x: fmul(k, a.x), y: fmul(k, a.y), z: fmul(k, a.z) }
}

/// Componentwise fixed-point division by the scalar with raw value `k`.
pub open spec fn vdivs(a: V3, k: int) -> V3 {
    V3 { x: fdiv(a.x, k), y: fdiv(a.y, k), z: fdiv(a.z, k) }
}

pub open spec fn vdot(a: V3, b: V3) -> int {
    fmul(a.x, b.x) + fmul(a.y, b.y) + fmul(a.z, b.z)
}

pub open spec fn vcross(a: V3, b: V3) -> V3 {
    V3 {
        x: fmul(a.y, b.z) - fmul(a.z, b.y),
        y: fmul(a.z, b.x) - fmul(a.x, b.z),
        z: fmul(a.x, b.y) - fmul(a.y, b.x),
    }
}

pub open spec fn vlen2(a: V3) -> int {
    vdot(a, a)
}

/// Raw length: floor square root of the scaled squared length.
pub open spec fn vlen(a: V3) -> int {
    sqrt_floor(vlen2(a) * (SCALE as int))
}

pub open spec fn vmax_abs(a: V3) -> int {
    if sabs(a.x) >= sabs(a.y) && sabs(a.x) >= sabs(a.z) {
        sabs(a.x)
    } else if sabs(a.y) >= sabs(a.z) {
        sabs(a.y)
    } else {
        sabs(a.z)
    }
}

/// Squared length computed the numerically stable way: components are first
/// divided by the largest magnitude, squared, summed, and rescaled.
pub open spec fn vstable_len2(a: V3) -> int {
    let m = vmax_abs(a);
    if m == 0 {
        0
    } else {
        let dx = fdiv(a.x, m);
        let dy = fdiv(a.y, m);
        let dz = fdiv(a.z, m);
        fmul(fmul(m, m), fmul(dx, dx) + fmul(dy, dy) + fmul(dz, dz))
    }
}

pub open spec fn vstable_len(a: V3) -> int {
    sqrt_floor(vstable_len2(a) * (SCALE as int))
}

pub open spec fn vunit(a: V3) -> V3 {
    vdivs(a, vlen(a))
}

pub open spec fn vstable_unit(a: V3) -> V3 {
    vdivs(a, vstable_len(a))
}

/// Mirror-reflection of `v` about the normal `n`: `v - 2 (v . n) n`.
pub open spec fn vreflect(v: V3, n: V3) -> V3 {
    vsub(v, vscale(2 * vdot(v, n), n))
}

pub open spec fn vbounded(a: V3, b: int) -> bool {
    sabs(a.x) <= b && sabs(a.y) <= b && sabs(a.z) <= b
}

/// All components below the degenerate-direction epsilon, which at this
/// resolution is one raw quantum.
pub open spec fn vnear_zero(a: V3) -> bool {
    a.x == 0 && a.y == 0 && a.z == 0
}

/// An accepted draw of the unit-vector rejection sampler: inside the box of
/// half-width one, with stable squared length in (0, 1].
pub open spec fn unit_sample(p: V3) -> bool {
    vbounded(p, (SCALE as int)) && 1 <= vstable_len2(p) <= (SCALE as int)
}

/// Bound on raw components accepted by the quadratic-form operations below.
pub const COMP_MAX: i64 = 1073741824;

/// Bound on the raw components of normalized vectors.
pub const UNIT_MAX: i64 = 131072;

/// A three-component fixed-point vector.
#[derive(Clone, Copy, PartialEq, Eq, Structural, Debug)]
pub struct Vec3 {
    pub x: Fx,
    pub y: Fx,
    pub z: Fx,
}

/// A position in space; the same representation as a direction or a color.
pub type Point3 = Vec3;

impl View for Vec3 {
    type V = V3;

    open spec fn view(&self) -> V3 {
        V3 { x: self.x.raw as int, y: self.y.raw as int, z: self.z.raw as int }
    }
}

use crate::fixed::{lemma_mul_bounds, lemma_fmul_bounds, lemma_fdiv_bounds, lemma_tdiv_odd};

/// Squares never lose sign: the fixed-point square of any value is at least 0.
pub proof fn lemma_fmul_sq_nonneg(a: int)
    ensures
        fmul(a, a) >= 0,
{
    assert(a * a >= 0) by (nonlinear_arith);
    if a * a > 0 {
        vstd::arithmetic::div_mod::lemma_div_pos_is_pos(a * a, (SCALE as int));
    }
}

/// The quadratic-form bound: componentwise-bounded vectors give bounded
/// dot products.
proof fn lemma_vdot_bound(a: V3, b: V3, c: int)
    requires
        0 <= c <= (COMP_MAX as int),
        vbounded(a, c),
        vbounded(b, c),
    ensures
        sabs(vdot(a, b)) <= 3 * tdiv(c * c, (SCALE as int)),
        -(3 * tdiv(c * c, (SCALE as int))) <= vdot(a, b) <= 3 * tdiv(c * c, (SCALE as int)),
{
    let q = tdiv(c * c, (SCALE as int));
    lemma_fmul_bounds(a.x, b.x, c, c);
    lemma_fmul_bounds(a.y, b.y, c, c);
    lemma_fmul_bounds(a.z, b.z, c, c);
}

/// Componentwise bounds give per-term and total bounds on a dot product.
pub proof fn lemma_vdot_range(a: V3, b: V3, ca: int, cb: int)
    requires
        0 <= ca,
        0 <= cb,
        vbounded(a, ca),
        vbounded(b, cb),
    ensures
        sabs(fmul(a.x, b.x)) <= tdiv(ca * cb, (SCALE as int)),
        sabs(fmul(a.y, b.y)) <= tdiv(ca * cb, (SCALE as int)),
        sabs(fmul(a.z, b.z)) <= tdiv(ca * cb, (SCALE as int)),
        sabs(vdot(a, b)) <= 3 * tdiv(ca * cb, (SCALE as int)),
        tdiv(ca * cb, (SCALE as int)) >= 0,
{
    lemma_fmul_bounds(a.x, b.x, ca, cb);
    lemma_fmul_bounds(a.y, b.y, ca, cb);
    lemma_fmul_bounds(a.z, b.z, ca, cb);
}

/// Squared lengths are nonnegative.
pub proof fn lemma_vlen2_nonneg(a: V3)
    ensures
        vlen2(a) >= 0,
{
    lemma_fmul_sq_nonneg(a.x);
    lemma_fmul_sq_nonneg(a.y);
    lemma_fmul_sq_nonneg(a.z);
}

impl Vec3 {
    /// The zero vector, as the default constructor.
    pub fn new() -> (r: Vec3)
        ensures
            r@ == (V3 { x: 0, y: 0, z: 0 }),
    {
        Vec3 { x: Fx { raw: 0 }, y: Fx { raw: 0 }, z: Fx { raw: 0 } }
    }

    pub fn from(x: Fx, y: Fx, z: Fx) -> (r: Vec3)
        ensures
            r@ == (V3 { x: x@, y: y@, z: z@ }),
    {
        Vec3 { x, y, z }
    }

    pub fn from_x(x: Fx) -> (r: Vec3)
        ensures
            r@ == (V3 { x: x@, y: 0, z: 0 }),
    {
        Vec3 { x, y: Fx { raw: 0 }, z: Fx { raw: 0 } }
    }

    pub fn from_y(y: Fx) -> (r: Vec3)
        ensures
            r@ == (V3 { x: 0, y: y@, z: 0 }),
    {
        Vec3 { x: Fx { raw: 0 }, y, z: Fx { raw: 0 } }
    }

    pub fn from_z(z: Fx) -> (r: Vec3)
        ensures
            r@ == (V3 { x: 0, y: 0, z: z@ }),
    {
        Vec3 { x: Fx { raw: 0 }, y: Fx { raw: 0 }, z }
    }

    pub fn zeros() -> (r: Vec3)
        ensures
            r@ == (V3 { x: 0, y: 0, z: 0 }),
    {
        Vec3::new()
    }

    pub fn ones() -> (r: Vec3)
        ensures
            r@ == (V3 { x: (SCALE as int), y: (SCALE as int), z: (SCALE as int) }),
    {
        Vec3 { x: Fx { raw: SCALE }, y: Fx { raw: SCALE }, z: Fx { raw: SCALE } }
    }

    pub fn unit_x() -> (r: Vec3)
        ensures
            r@ == (V3 { x: (SCALE as int), y: 0, z: 0 }),
    {
        Vec3 { x: Fx { raw: SCALE }, y: Fx { raw: 0 }, z: Fx { raw: 0 } }
    }

    pub fn unit_y() -> (r: Vec3)
        ensures
            r@ == (V3 { x: 0, y: (SCALE as int), z: 0 }),
    {
        Vec3 { x: Fx { raw: 0 }, y: Fx { raw: SCALE }, z: Fx { raw: 0 } }
    }

    pub fn unit_z() -> (r: Vec3)
        ensures
            r@ == (V3 { x: 0, y: 0, z: (SCALE as int) }),
    {
        Vec3 { x: Fx { raw: 0 }, y: Fx { raw: 0 }, z: Fx { raw: SCALE } }
    }

    /// Whether every component's magnitude is at most `b`.
    pub fn in_bounds(&self, b: i64) -> (r: bool)
        requires
            b >= 0,
        ensures
            r == vbounded(self@, b as int),
    {
        -b <= self.x.raw && self.x.raw <= b && -b <= self.y.raw && self.y.raw <= b && -b
            <= self.z.raw && self.z.raw <= b
    }

    pub fn add(self, o: Vec3) -> (r: Vec3)
        requires
            in_raw(self@.x + o@.x),
            in_raw(self@.y + o@.y),
            in_raw(self@.z + o@.z),
        ensures
            r@ == vadd(self@, o@),
    {
        Vec3 { x: self.x.add(o.x), y: self.y.add(o.y), z: self.z.add(o.z) }
    }

    pub fn sub(self, o: Vec3) -> (r: Vec3)
        requires
            in_raw(self@.x - o@.x),
            in_raw(self@.y - o@.y),
            in_raw(self@.z - o@.z),
        ensures
            r@ == vsub(self@, o@),
    {
        Vec3 { x: self.x.sub(o.x), y: self.y.sub(o.y), z: self.z.sub(o.z) }
    }

    pub fn neg(self) -> (r: Vec3)
        requires
            self@.x != i64::MIN,
            self@.y != i64::MIN,
            self@.z != i64::MIN,
        ensures
            r@ == vneg(self@),
    {
        Vec3 { x: self.x.neg(), y: self.y.neg(), z: self.z.neg() }
    }

    /// Componentwise product.
    pub fn cmul(self, o: Vec3) -> (r: Vec3)
        requires
            in_raw(fmul(self@.x, o@.x)),
            in_raw(fmul(self@.y, o@.y)),
            in_raw(fmul(self@.z, o@.z)),
        ensures
            r@ == vcmul(self@, o@),
    {
        Vec3 { x: self.x.mul(o.x), y: self.y.mul(o.y), z: self.z.mul(o.z) }
    }

    /// Scaling by a scalar.
    pub fn scale(self, k: Fx) -> (r: Vec3)
        requires
            in_raw(fmul(k@, self@.x)),
            in_raw(fmul(k@, self@.y)),
            in_raw(fmul(k@, self@.z)),
        ensures
            r@ == vscale(k@, self@),
    {
        Vec3 { x: k.mul(self.x), y: k.mul(self.y), z: k.mul(self.z) }
    }

    /// Componentwise division by a scalar.
    pub fn divs(self, k: Fx) -> (r: Vec3)
        requires
            k@ != 0,
            in_raw(fdiv(self@.x, k@)),
            in_raw(fdiv(self@.y, k@)),
            in_raw(fdiv(self@.z, k@)),
        ensures
            r@ == vdivs(self@, k@),
    {
        Vec3 { x: self.x.div(k), y: self.y.div(k), z: self.z.div(k) }
    }

    pub fn dot(u: Vec3, v: Vec3) -> (r: Fx)
        requires
            vbounded(u@, (COMP_MAX as int)),
            vbounded(v@, (COMP_MAX as int)),
        ensures
            r@ == vdot(u@, v@),
            sabs(r@) <= 3 * tdiv(COMP_MAX as int * (COMP_MAX as int), (SCALE as int)),
    {
        proof {
            lemma_comp_products_fit(u@, v@);
            lemma_vdot_bound(u@, v@, (COMP_MAX as int));
        }
        let a = u.x.mul(v.x);
        let b = u.y.mul(v.y);
        let c = u.z.mul(v.z);
        Fx { raw: a.raw + b.raw + c.raw }
    }

    pub fn cross(u: Vec3, v: Vec3) -> (r: Vec3)
        requires
            vbounded(u@, (COMP_MAX as int)),
            vbounded(v@, (COMP_MAX as int)),
        ensures
            r@ == vcross(u@, v@),
    {
        proof {
            lemma_comp_products_fit(u@, v@);
            lemma_cross_products_fit(u@, v@);
        }
        Vec3 {
            x: u.y.mul(v.z).sub(u.z.mul(v.y)),
            y: u.z.mul(v.x).sub(u.x.mul(v.z)),
            z: u.x.mul(v.y).sub(u.y.mul(v.x)),
        }
    }

    pub fn length_squared(&self) -> (r: Fx)
        requires
            vbounded(self@, (COMP_MAX as int)),
        ensures
            r@ == vlen2(self@),
            0 <= r@ <= 3 * tdiv(COMP_MAX as int * (COMP_MAX as int), (SCALE as int)),
    {
        proof {
            lemma_vlen2_nonneg(self@);
            lemma_vdot_bound(self@, self@, (COMP_MAX as int));
        }
        Vec3::dot(*self, *self)
    }

    pub fn length(&self) -> (r: Fx)
        requires
            vbounded(self@, (COMP_MAX as int)),
        ensures
            r@ == vlen(self@),
            r@ >= 0,
    {
        let ls = self.length_squared();
        ls.sqrt()
    }

    /// Stable squared length: divide by the largest magnitude first, square,
    /// sum, and rescale, so that short vectors do not collapse to zero.
    pub fn stable_length_squared(&self) -> (r: Fx)
        requires
            vbounded(self@, (COMP_MAX as int)),
        ensures
            r@ == vstable_len2(self@),
            r@ >= 0,
    {
        let ax = self.x.abs();
        let ay = self.y.abs();
        let az = self.z.abs();
        let m = if ax.raw >= ay.raw && ax.raw >= az.raw {
            ax
        } else if ay.raw >= az.raw {
            ay
        } else {
            az
        };
        if m.raw == 0 {
            proof {
                assert(vmax_abs(self@) == 0);
            }
            Fx { raw: 0 }
        } else {
            proof {
                lemma_stable_parts_fit(self@);
            }
            let dx = self.x.div(m);
            let dy = self.y.div(m);
            let dz = self.z.div(m);
            let s = Fx { raw: dx.mul(dx).raw + dy.mul(dy).raw + dz.mul(dz).raw };
            let mm = m.mul(m);
            let r = mm.mul(s);
            proof {
                lemma_fmul_sq_nonneg(vmax_abs(self@));
                lemma_stable_result_nonneg(self@);
            }
            r
        }
    }

    pub fn stable_length(&self) -> (r: Fx)
        requires
            vbounded(self@, (COMP_MAX as int)),
        ensures
            r@ == vstable_len(self@),
            r@ >= 0,
    {
        let ls = self.stable_length_squared();
        ls.sqrt()
    }

    /// The test for a degenerate direction: every component's magnitude is
    /// below the epsilon, which at this resolution is one raw quantum.
    pub fn near_zero(&self) -> (r: bool)
        ensures
            r == vnear_zero(self@),
    {
        self.x.raw == 0 && self.y.raw == 0 && self.z.raw == 0
    }

    /// A vector with each component uniform in `[0, 1)`.
    pub fn random(rs: &mut RandomStream) -> (r: Vec3)
        ensures
            vbounded(r@, (SCALE as int)),
            0 <= r@.x < (SCALE as int),
            0 <= r@.y < (SCALE as int),
            0 <= r@.z < (SCALE as int),
    {
        let x = crate::utils::rand_scalar(rs);
        let y = crate::utils::rand_scalar(rs);
        let z = crate::utils::rand_scalar(rs);
        Vec3 { x, y, z }
    }

    /// A vector with each component uniform in `[min, max)`.
    pub fn random_in(rs: &mut RandomStream, min: Fx, max: Fx) -> (r: Vec3)
        requires
            min@ < max@,
            in_raw(max@ - min@),
        ensures
            min@ <= r@.x < max@,
            min@ <= r@.y < max@,
            min@ <= r@.z < max@,
    {
        let x = rand_scalar_in(rs, min, max);
        let y = rand_scalar_in(rs, min, max);
        let z = rand_scalar_in(rs, min, max);
        Vec3 { x, y, z }
    }

    /// Normalization by the plain length.
    pub fn unit_vector(v: Vec3) -> (r: Vec3)
        requires
            vbounded(v@, (COMP_MAX as int)),
            vlen2(v@) >= 1,
        ensures
            r@ == vunit(v@),
            vbounded(r@, (UNIT_MAX as int)),
    {
        let l = v.length();
        proof {
            lemma_unit_comp_bound(v@);
        }
        let r = v.divs(l);
        r
    }

    /// Normalization by the stable length.
    pub fn stable_unit_vector(v: Vec3) -> (r: Vec3)
        requires
            vbounded(v@, (COMP_MAX as int)),
            vstable_len2(v@) >= 1,
        ensures
            r@ == vstable_unit(v@),
    {
        let l = v.stable_length();
        proof {
            lemma_sqrt_floor_bounds(vstable_len2(v@) * (SCALE as int));
            assert(vstable_len2(v@) * 65536 >= 65536) by (nonlinear_arith)
                requires
                    vstable_len2(v@) >= 1,
            ;
            if vstable_len(v@) == 0 {
                assert((vstable_len(v@) + 1) * (vstable_len(v@) + 1) == 1) by (nonlinear_arith)
                    requires
                        vstable_len(v@) == 0,
                ;
                assert(false);
            }
            crate::fixed::lemma_fdiv_coarse(v@.x, vstable_len(v@));
            crate::fixed::lemma_fdiv_coarse(v@.y, vstable_len(v@));
            crate::fixed::lemma_fdiv_coarse(v@.z, vstable_len(v@));
        }
        let r = v.divs(l);
        r
    }

    /// A pseudo-random direction of stable length one, by bounded rejection
    /// sampling over the unit box; after too many rejected draws the sampler
    /// falls back to the vertical axis, itself an accepted sample.
    pub fn random_unit_vector(rs: &mut RandomStream) -> (r: Vec3)
        ensures
            exists|p: V3| unit_sample(p) && r@ == vstable_unit(p),
            vbounded(r@, (UNIT_MAX as int)),
    {
        let mut i: u64 = 0;
        while i < 64
            invariant
                true,
            decreases 64 - i,
        {
            let p = Vec3::random_in(rs, Fx { raw: -SCALE }, Fx { raw: SCALE });
            let s = p.stable_length_squared();
            if 1 <= s.raw && s.raw <= SCALE {
                let r = Vec3::stable_unit_vector(p);
                proof {
                    lemma_stable_unit_comp_bound(p@);
                    assert(unit_sample(p@) && r@ == vstable_unit(p@));
                }
                return r;
            }
            i = i + 1;
        }
        let f = Vec3::unit_z();
        proof {
            lemma_axis_is_unit_sample();
            assert(unit_sample(V3 { x: 0, y: 0, z: (SCALE as int) }) && f@ == vstable_unit(
                V3 { x: 0, y: 0, z: (SCALE as int) },
            ));
        }
        f
    }

    /// A pseudo-random unit direction on the hemisphere around `normal`.
    pub fn random_on_hemisphere(rs: &mut RandomStream, normal: Vec3) -> (r: Vec3)
        requires
            vbounded(normal@, (COMP_MAX as int)),
        ensures
            exists|p: V3|
                unit_sample(p) && (if vdot(vstable_unit(p), normal@) > 0 {
                    r@ == vstable_unit(p)
                } else {
                    r@ == vneg(vstable_unit(p))
                }),
            vbounded(r@, (UNIT_MAX as int)),
    {
        let on_unit_sphere = Vec3::random_unit_vector(rs);
        let d = Vec3::dot(on_unit_sphere, normal);
        if d.raw > 0 {
            on_unit_sphere
        } else {
            on_unit_sphere.neg()
        }
    }

    /// Mirror reflection `v - 2 (v . n) n`.
    pub fn reflect(v: Vec3, n: Vec3) -> (r: Vec3)
        requires
            vbounded(v@, 33554432),
            vbounded(n@, 262144),
        ensures
            r@ == vreflect(v@, n@),
    {
        proof {
            lemma_reflect_fits(v@, n@);
        }
        let d = Vec3::dot(v, n);
        let k = Fx { raw: 2 * d.raw };
        v.sub(n.scale(k))
    }

    /// Snell refraction of the unit direction `uv` at the normal `n` with
    /// index ratio `ratio`; the caller rules out total internal reflection.
    pub fn refract(uv: Vec3, n: Vec3, ratio: Fx) -> (r: Vec3)
        requires
            vbounded(uv@, (UNIT_MAX as int)),
            vbounded(n@, (UNIT_MAX as int)),
            0 <= ratio@ <= 4294967296,
        ensures
            r@ == vrefract(uv@, n@, ratio@),
    {
        proof {
            lemma_refract_fits(uv@, n@, ratio@);
        }
        let c0 = Vec3::dot(uv.neg(), n);
        let c = if c0.raw > SCALE {
            Fx { raw: SCALE }
        } else {
            c0
        };
        proof {
            lemma_fmul_bounds(c@, n@.x, 786432, 131072);
            lemma_fmul_bounds(c@, n@.y, 786432, 131072);
            lemma_fmul_bounds(c@, n@.z, 786432, 131072);
            assert(786432 * 131072 == 1572864 * (SCALE as int));
            crate::fixed::lemma_tdiv_mul_exact(1572864);
        }
        let mid = uv.add(n.scale(c));
        proof {
            lemma_fmul_bounds(ratio@, mid@.x, 4294967296, 1703936);
            lemma_fmul_bounds(ratio@, mid@.y, 4294967296, 1703936);
            lemma_fmul_bounds(ratio@, mid@.z, 4294967296, 1703936);
            assert(4294967296 * 1703936 == 111669149696 * (SCALE as int));
            crate::fixed::lemma_tdiv_mul_exact(111669149696);
        }
        let perp = mid.scale(ratio);
        proof {
            lemma_fmul_sq_nonneg(perp@.x);
            lemma_fmul_sq_nonneg(perp@.y);
            lemma_fmul_sq_nonneg(perp@.z);
            lemma_fmul_bounds(perp@.x, perp@.x, 111669149696, 111669149696);
            lemma_fmul_bounds(perp@.y, perp@.y, 111669149696, 111669149696);
            lemma_fmul_bounds(perp@.z, perp@.z, 111669149696, 111669149696);
            assert(111669149696 * 111669149696 == 190277084256403456 * (SCALE as int));
            crate::fixed::lemma_tdiv_mul_exact(190277084256403456);
        }
        let pl2 = Fx {
            raw: perp.x.mul(perp.x).raw + perp.y.mul(perp.y).raw + perp.z.mul(perp.z).raw,
        };
        let k = Fx { raw: SCALE }.sub(pl2).abs().sqrt();
        proof {
            let x = sabs((SCALE as int) - vlen2(perp@));
            lemma_sqrt_floor_bounds(x * (SCALE as int));
            assert(x * (SCALE as int) <= 570831252769275904 * 65536) by (nonlinear_arith)
                requires
                    0 <= x <= 570831252769275904,
                    (SCALE as int) == 65536,
            ;
            assert(k@ <= 274877906944) by (nonlinear_arith)
                requires
                    k@ >= 0,
                    k@ * k@ <= 570831252769275904 * 65536,
            ;
            lemma_fmul_bounds(-k@, n@.x, 274877906944, 131072);
            lemma_fmul_bounds(-k@, n@.y, 274877906944, 131072);
            lemma_fmul_bounds(-k@, n@.z, 274877906944, 131072);
            assert(274877906944 * 131072 == 549755813888 * (SCALE as int));
            crate::fixed::lemma_tdiv_mul_exact(549755813888);
        }
        let par = n.scale(k.neg());
        perp.add(par)
    }
}

/// Snell refraction at the spec level, mirroring `Vec3::refract` exactly.
pub open spec fn vrefract(uv: V3, n: V3, ratio: int) -> V3 {
    let c0 = vdot(vneg(uv), n);
    let c = if c0 > (SCALE as int) {
        (SCALE as int)
    } else {
        c0
    };
    let perp = vscale(ratio, vadd(uv, vscale(c, n)));
    let k = sqrt_floor(sabs(SCALE as int - vlen2(perp)) * (SCALE as int));
    vadd(perp, vscale(-k, n))
}

/// Componentwise products of vectors bounded by `COMP_MAX` stay in range.
proof fn lemma_comp_products_fit(a: V3, b: V3)
    requires
        vbounded(a, (COMP_MAX as int)),
        vbounded(b, (COMP_MAX as int)),
    ensures
        in_raw(fmul(a.x, b.x)),
        in_raw(fmul(a.y, b.y)),
        in_raw(fmul(a.z, b.z)),
        in_raw(fmul(a.x, b.y)),
        in_raw(fmul(a.x, b.z)),
        in_raw(fmul(a.y, b.x)),
        in_raw(fmul(a.y, b.z)),
        in_raw(fmul(a.z, b.x)),
        in_raw(fmul(a.z, b.y)),
        sabs(fmul(a.x, b.x)) <= 17592186044416,
        sabs(fmul(a.y, b.y)) <= 17592186044416,
        sabs(fmul(a.z, b.z)) <= 17592186044416,
        sabs(fmul(a.x, b.y)) <= 17592186044416,
        sabs(fmul(a.x, b.z)) <= 17592186044416,
        sabs(fmul(a.y, b.x)) <= 17592186044416,
        sabs(fmul(a.y, b.z)) <= 17592186044416,
        sabs(fmul(a.z, b.x)) <= 17592186044416,
        sabs(fmul(a.z, b.y)) <= 17592186044416,
        in_raw(vdot(a, b)),
        in_raw(fmul(a.x, b.x) + fmul(a.y, b.y)),
{
    let c = (COMP_MAX as int);
    let q = tdiv(c * c, (SCALE as int));
    assert(q == 17592186044416) by {
        crate::fixed::lemma_tdiv_exact(c * c, (SCALE as int));
        assert(q * (SCALE as int) == c * c);
        assert(q == 17592186044416) by (nonlinear_arith)
            requires
                q * 65536 == 1152921504606846976,
        ;
    }
    lemma_fmul_bounds(a.x, b.x, c, c);
    lemma_fmul_bounds(a.y, b.y, c, c);
    lemma_fmul_bounds(a.z, b.z, c, c);
    lemma_fmul_bounds(a.x, b.y, c, c);
    lemma_fmul_bounds(a.x, b.z, c, c);
    lemma_fmul_bounds(a.y, b.x, c, c);
    lemma_fmul_bounds(a.y, b.z, c, c);
    lemma_fmul_bounds(a.z, b.x, c, c);
    lemma_fmul_bounds(a.z, b.y, c, c);
}

proof fn lemma_cross_products_fit(a: V3, b: V3)
    requires
        vbounded(a, (COMP_MAX as int)),
        vbounded(b, (COMP_MAX as int)),
    ensures
        in_raw(fmul(a.y, b.z) - fmul(a.z, b.y)),
        in_raw(fmul(a.z, b.x) - fmul(a.x, b.z)),
        in_raw(fmul(a.x, b.y) - fmul(a.y, b.x)),
{
    lemma_comp_products_fit(a, b);
}

/// Intermediates of the stable squared length stay in range; the normalized
/// components have magnitude at most one.
proof fn lemma_stable_parts_fit(a: V3)
    requires
        vbounded(a, (COMP_MAX as int)),
        vmax_abs(a) != 0,
    ensures
        in_raw(fdiv(a.x, vmax_abs(a))),
        in_raw(fdiv(a.y, vmax_abs(a))),
        in_raw(fdiv(a.z, vmax_abs(a))),
        sabs(fdiv(a.x, vmax_abs(a))) <= (SCALE as int),
        sabs(fdiv(a.y, vmax_abs(a))) <= (SCALE as int),
        sabs(fdiv(a.z, vmax_abs(a))) <= (SCALE as int),
        in_raw(fmul(vmax_abs(a), vmax_abs(a))),
        0 <= fmul(fdiv(a.x, vmax_abs(a)), fdiv(a.x, vmax_abs(a))) <= (SCALE as int),
        0 <= fmul(fdiv(a.y, vmax_abs(a)), fdiv(a.y, vmax_abs(a))) <= (SCALE as int),
        0 <= fmul(fdiv(a.z, vmax_abs(a)), fdiv(a.z, vmax_abs(a))) <= (SCALE as int),
        0 <= fmul(vmax_abs(a), vmax_abs(a)) <= 17592186044416,
        in_raw(vstable_len2(a)),
{
    let m = vmax_abs(a);
    let sc = (SCALE as int);
    assert forall|u: int| sabs(u) <= m implies sabs(#[trigger] fdiv(u, m)) <= sc by {
        assert(u * 65536 <= m * 65536 && -(m * 65536) <= u * 65536);
        assert(m * 65536 == 65536 * m);
        lemma_fdiv_bounds(u, m, m, sc);
    }
    let dx = fdiv(a.x, m);
    let dy = fdiv(a.y, m);
    let dz = fdiv(a.z, m);
    assert forall|u: int| sabs(u) <= sc implies 0 <= #[trigger] fmul(u, u) <= sc by {
        lemma_fmul_sq_nonneg(u);
        lemma_fmul_bounds(u, u, sc, sc);
        assert(tdiv(sc * sc, sc) == sc) by {
            lemma_tdiv_exact(sc * sc, sc);
            assert(tdiv(sc * sc, sc) * sc == sc * sc);
            assert(tdiv(sc * sc, sc) == sc) by (nonlinear_arith)
                requires
                    tdiv(sc * sc, sc) * sc == sc * sc,
                    sc >= 1,
            ;
        }
    }
    let s = fmul(dx, dx) + fmul(dy, dy) + fmul(dz, dz);
    assert(0 <= s <= 3 * sc);
    lemma_fmul_sq_nonneg(m);
    lemma_fmul_bounds(m, m, (COMP_MAX as int), (COMP_MAX as int));
    assert(tdiv((COMP_MAX as int) * (COMP_MAX as int), sc) == 17592186044416) by {
        lemma_tdiv_exact((COMP_MAX as int) * (COMP_MAX as int), sc);
        assert(tdiv((COMP_MAX as int) * (COMP_MAX as int), sc) * sc == (COMP_MAX as int) * (
        COMP_MAX as int));
        assert(tdiv((COMP_MAX as int) * (COMP_MAX as int), sc) == 17592186044416)
            by (nonlinear_arith)
            requires
                tdiv((COMP_MAX as int) * (COMP_MAX as int), sc) * sc == (COMP_MAX as int) * (
                COMP_MAX as int),
                sc == 65536,
                (COMP_MAX as int) == 1073741824,
        ;
    }
    let mm = fmul(m, m);
    lemma_fmul_bounds(mm, s, 17592186044416, 3 * sc);
}

/// The stable squared length is nonnegative.
proof fn lemma_stable_result_nonneg(a: V3)
    requires
        vbounded(a, (COMP_MAX as int)),
    ensures
        vstable_len2(a) >= 0,
{
    let m = vmax_abs(a);
    if m != 0 {
        lemma_stable_parts_fit(a);
        let dx = fdiv(a.x, m);
        let dy = fdiv(a.y, m);
        let dz = fdiv(a.z, m);
        lemma_fmul_sq_nonneg(dx);
        lemma_fmul_sq_nonneg(dy);
        lemma_fmul_sq_nonneg(dz);
        lemma_fmul_sq_nonneg(m);
        let s = fmul(dx, dx) + fmul(dy, dy) + fmul(dz, dz);
        let mm = fmul(m, m);
        assert(mm * s >= 0) by (nonlinear_arith)
            requires
                mm >= 0,
                s >= 0,
        ;
        if mm * s > 0 {
            vstd::arithmetic::div_mod::lemma_div_pos_is_pos(mm * s, (SCALE as int));
        }
    }
}

/// Components of a plainly normalized vector have magnitude at most two.
proof fn lemma_unit_comp_bound(v: V3)
    requires
        vbounded(v, (COMP_MAX as int)),
        vlen2(v) >= 1,
    ensures
        vlen(v) >= 1,
        vbounded(vunit(v), (UNIT_MAX as int)),
{
    let ls = vlen2(v);
    let l = vlen(v);
    lemma_vlen2_nonneg(v);
    lemma_sqrt_floor_bounds(ls * (SCALE as int));
    assert(ls * 65536 >= 65536) by (nonlinear_arith)
        requires
            ls >= 1,
    ;
    if l == 0 {
        assert((l + 1) * (l + 1) == 1) by (nonlinear_arith)
            requires
                l == 0,
        ;
        assert(false);
    }
    assert(l * l + 2 * l >= ls * 65536) by (nonlinear_arith)
        requires
            ls * 65536 < (l + 1) * (l + 1),
    ;
    // l * l + 2 * l >= SCALE means l >= 255.
    assert(l >= 255) by (nonlinear_arith)
        requires
            l >= 1,
            l * l + 2 * l >= 65536,
    ;
    assert forall|u: int| sabs(u) <= (COMP_MAX as int) && fmul(u, u) <= ls implies sabs(
        #[trigger] fdiv(u, l),
    ) <= (UNIT_MAX as int) by {
        // u * u < (ls + 1) * SCALE <= 2 * ls * SCALE <= 2 * (l * l + 2 * l)
        assert(u * u >= 0) by (nonlinear_arith);
        assert(fmul(u, u) == (u * u) / 65536);
        assert((u * u) / 65536 * 65536 <= u * u < ((u * u) / 65536 + 1) * 65536) by {
            vstd::arithmetic::div_mod::lemma_fundamental_div_mod(u * u, 65536);
            vstd::arithmetic::div_mod::lemma_mod_bound(u * u, 65536);
        }
        assert(u * u <= 4 * (l * l)) by (nonlinear_arith)
            requires
                u * u < (fmul(u, u) + 1) * 65536,
                fmul(u, u) <= ls,
                ls * 65536 <= l * l + 2 * l,
                ls >= 1,
                l >= 255,
        ;
        assert(-(2 * l) <= u <= 2 * l) by (nonlinear_arith)
            requires
                u * u <= 4 * (l * l),
                l >= 1,
        ;
        assert(-(131072 * l) <= u * 65536 <= 131072 * l);
        lemma_tdiv_bounds(u * 65536, l, 131072);
        assert(fdiv(u, l) == tdiv(u * 65536, l));
    }
    assert(fmul(v.x, v.x) <= ls && fmul(v.y, v.y) <= ls && fmul(v.z, v.z) <= ls) by {
        lemma_fmul_sq_nonneg(v.x);
        lemma_fmul_sq_nonneg(v.y);
        lemma_fmul_sq_nonneg(v.z);
    }
}

/// Components of a stably normalized accepted sample have magnitude at most
/// two.
proof fn lemma_stable_unit_comp_bound(p: V3)
    requires
        unit_sample(p),
    ensures
        vstable_len(p) >= 1,
        vbounded(vstable_unit(p), (UNIT_MAX as int)),
{
    let m = vmax_abs(p);
    let sls = vstable_len2(p);
    let l = vstable_len(p);
    lemma_sqrt_floor_bounds(sls * (SCALE as int));
    assert(sls * 65536 >= 65536) by (nonlinear_arith)
        requires
            sls >= 1,
    ;
    if l == 0 {
        assert((l + 1) * (l + 1) == 1) by (nonlinear_arith)
            requires
                l == 0,
        ;
        assert(false);
    }
    assert(l * l + 2 * l >= sls * 65536) by (nonlinear_arith)
        requires
            sls * 65536 < (l + 1) * (l + 1),
    ;
    assert(l >= 255) by (nonlinear_arith)
        requires
            l >= 1,
            l * l + 2 * l >= 65536,
    ;
    assert(m != 0);
    lemma_stable_parts_fit(p);
    // The normalized maximal component is exactly one, so the inner sum is at
    // least SCALE and the stable squared length is at least fmul(m, m).
    let dx = fdiv(p.x, m);
    let dy = fdiv(p.y, m);
    let dz = fdiv(p.z, m);
    let s = fmul(dx, dx) + fmul(dy, dy) + fmul(dz, dz);
    assert(s >= (SCALE as int)) by {
        lemma_fmul_sq_nonneg(dx);
        lemma_fmul_sq_nonneg(dy);
        lemma_fmul_sq_nonneg(dz);
        if sabs(p.x) == m {
            lemma_norm_max_is_one(p.x, m);
        } else if sabs(p.y) == m {
            lemma_norm_max_is_one(p.y, m);
        } else {
            lemma_norm_max_is_one(p.z, m);
        }
    }
    let mm = fmul(m, m);
    assert(sls >= mm) by {
        assert(mm * 65536 <= mm * s) by (nonlinear_arith)
            requires
                mm >= 0,
                s >= 65536,
        ;
        lemma_tdiv_mono(mm * 65536, mm * s, 65536);
        lemma_fmul_sq_nonneg(m);
        assert((mm * 65536) % 65536 == 0) by {
            vstd::arithmetic::div_mod::lemma_mod_multiples_basic(mm, 65536);
        }
        lemma_tdiv_exact(mm * 65536, 65536);
        assert(tdiv(mm * 65536, 65536) == mm) by (nonlinear_arith)
            requires
                tdiv(mm * 65536, 65536) * 65536 == mm * 65536,
        ;
    }
    assert(m * m >= 0) by (nonlinear_arith);
    assert(fmul(m, m) == (m * m) / 65536);
    assert(fmul(m, m) * 65536 <= m * m < (fmul(m, m) + 1) * 65536) by {
        vstd::arithmetic::div_mod::lemma_fundamental_div_mod(m * m, 65536);
        vstd::arithmetic::div_mod::lemma_mod_bound(m * m, 65536);
    }
    assert(m * m <= 4 * (l * l)) by (nonlinear_arith)
        requires
            m * m < (fmul(m, m) + 1) * 65536,
            fmul(m, m) <= sls,
            sls * 65536 <= l * l + 2 * l,
            sls >= 1,
            l >= 255,
    ;
    assert(m <= 2 * l) by (nonlinear_arith)
        requires
            m * m <= 4 * (l * l),
            m >= 0,
            l >= 1,
    ;
    assert forall|u: int| sabs(u) <= m implies sabs(#[trigger] fdiv(u, l)) <= (UNIT_MAX as int) by {
        assert(-(131072 * l) <= u * 65536 <= 131072 * l);
        lemma_tdiv_bounds(u * 65536, l, 131072);
        assert(fdiv(u, l) == tdiv(u * 65536, l));
    }
}

/// Dividing the maximal component by the maximal magnitude gives exactly
/// plus or minus one.
proof fn lemma_norm_max_is_one(u: int, m: int)
    requires
        m >= 1,
        sabs(u) == m,
    ensures
        fmul(fdiv(u, m), fdiv(u, m)) == (SCALE as int),
{
    assert((m * 65536) % m == 0) by {
        vstd::arithmetic::div_mod::lemma_mod_multiples_basic(65536, m);
        assert(65536 * m == m * 65536) by (nonlinear_arith);
    }
    lemma_tdiv_exact(m * 65536, m);
    let q = tdiv(m * 65536, m);
    assert(q == 65536) by (nonlinear_arith)
        requires
            q * m == m * 65536,
            m >= 1,
    ;
    if u >= 0 {
        assert(fdiv(u, m) == 65536);
    } else {
        assert(u == -m);
        assert(u * 65536 == -(m * 65536));
        assert(fdiv(u, m) == -65536);
    }
    let d = fdiv(u, m);
    assert(d * d == 65536 * 65536) by (nonlinear_arith)
        requires
            d == 65536 || d == -65536,
    ;
    assert((65536 * 65536) % 65536 == 0) by {
        vstd::arithmetic::div_mod::lemma_mod_multiples_basic(65536, 65536);
    }
    lemma_tdiv_exact((65536 * 65536) as int, 65536);
    assert(fmul(d, d) == 65536) by (nonlinear_arith)
        requires
            fmul(d, d) * 65536 == 65536 * 65536,
    ;
}

/// The vertical axis is itself an accepted sample that normalizes to itself.
proof fn lemma_axis_is_unit_sample()
    ensures
        unit_sample(V3 { x: 0, y: 0, z: (SCALE as int) }),
        vstable_unit(V3 { x: 0, y: 0, z: (SCALE as int) }) == (V3 { x: 0, y: 0, z: (SCALE as int) }),
{
    let a = V3 { x: 0, y: 0, z: (SCALE as int) };
    let m = vmax_abs(a);
    assert(m == (SCALE as int));
    lemma_norm_max_is_one(a.z, m);
    assert(fdiv(0, m) == 0);
    assert(fmul(0, 0) == 0);
    let s = fmul(fdiv(a.x, m), fdiv(a.x, m)) + fmul(fdiv(a.y, m), fdiv(a.y, m)) + fmul(
        fdiv(a.z, m),
        fdiv(a.z, m),
    );
    assert(s == (SCALE as int));
    lemma_norm_max_is_one(m, m);
    assert(fmul(m, m) == fmul(65536, 65536));
    assert((65536 * 65536) % 65536 == 0) by {
        vstd::arithmetic::div_mod::lemma_mod_multiples_basic(65536, 65536);
    }
    lemma_tdiv_exact((65536 * 65536) as int, 65536);
    assert(fmul(65536, 65536) == 65536) by (nonlinear_arith)
        requires
            fmul(65536, 65536) * 65536 == 65536 * 65536,
    ;
    assert(vstable_len2(a) == fmul(65536, 65536));
    assert(vstable_len2(a) == 65536);
    assert(vstable_len(a) == sqrt_floor((65536 * 65536) as int));
    assert(65536 * 65536 < (65536 + 1) * (65536 + 1)) by (nonlinear_arith);
    lemma_sqrt_floor_unique((65536 * 65536) as int, 65536);
    assert(vstable_len(a) == 65536);
    assert(fdiv(a.z, 65536) == 65536) by {
        assert(tdiv((65536 * 65536) as int, 65536) == 65536) by (nonlinear_arith)
            requires
                tdiv((65536 * 65536) as int, 65536) * 65536 == 65536 * 65536,
        ;
    }
}

proof fn lemma_reflect_fits(v: V3, n: V3)
    requires
        vbounded(v, 33554432),
        vbounded(n, 262144),
    ensures
        in_raw(2 * vdot(v, n)),
        sabs(2 * vdot(v, n)) <= (COMP_MAX as int),
        sabs(fmul(2 * vdot(v, n), n.x)) <= 3221225472,
        sabs(fmul(2 * vdot(v, n), n.y)) <= 3221225472,
        sabs(fmul(2 * vdot(v, n), n.z)) <= 3221225472,
        in_raw(v.x - fmul(2 * vdot(v, n), n.x)),
        in_raw(v.y - fmul(2 * vdot(v, n), n.y)),
        in_raw(v.z - fmul(2 * vdot(v, n), n.z)),
{
    let d = vdot(v, n);
    assert forall|u: int, w: int| sabs(u) <= 33554432 && sabs(w) <= 262144 implies sabs(
        #[trigger] fmul(u, w),
    ) <= 134217728 by {
        assert(-(134217728 * 65536) <= u * w <= 134217728 * 65536) by (nonlinear_arith)
            requires
                -33554432 <= u <= 33554432,
                -262144 <= w <= 262144,
        ;
        lemma_tdiv_bounds(u * w, 65536, 134217728);
    }
    assert(sabs(d) <= 3 * 134217728);
    let k = 2 * d;
    assert forall|w: int| sabs(w) <= 262144 implies sabs(#[trigger] fmul(k, w))
        <= 3221225472 by {
        assert(-(3221225472 * 65536) <= k * w <= 3221225472 * 65536) by (nonlinear_arith)
            requires
                -805306368 <= k <= 805306368,
                -262144 <= w <= 262144,
        ;
        lemma_tdiv_bounds(k * w, 65536, 3221225472);
    }
}

proof fn lemma_refract_fits(uv: V3, n: V3, ratio: int)
    requires
        vbounded(uv, (UNIT_MAX as int)),
        vbounded(n, (UNIT_MAX as int)),
        0 <= ratio <= 4294967296,
    ensures
        vbounded(vneg(uv), (COMP_MAX as int)),
        in_raw(vdot(vneg(uv), n)),
        sabs(vdot(vneg(uv), n)) <= 786432,
{
    lemma_fmul_bounds(-uv.x, n.x, (UNIT_MAX as int), (UNIT_MAX as int));
    lemma_fmul_bounds(-uv.y, n.y, (UNIT_MAX as int), (UNIT_MAX as int));
    lemma_fmul_bounds(-uv.z, n.z, (UNIT_MAX as int), (UNIT_MAX as int));
    assert(tdiv((UNIT_MAX as int) * (UNIT_MAX as int), (SCALE as int)) == 262144) by {
        lemma_tdiv_exact((UNIT_MAX as int) * (UNIT_MAX as int), (SCALE as int));
        assert(tdiv((UNIT_MAX as int) * (UNIT_MAX as int), (SCALE as int)) == 262144)
            by (nonlinear_arith)
            requires
                tdiv((UNIT_MAX as int) * (UNIT_MAX as int), (SCALE as int)) * (SCALE as int) == (
                UNIT_MAX as int) * (UNIT_MAX as int),
                (SCALE as int) == 65536,
                (UNIT_MAX as int) == 131072,
        ;
    }
}

/// Reflecting twice about the same normal returns the original vector: the
/// involution law, on the inputs where the fixed-point grid is exact. The
/// preconditions ask that the normal be exactly unit length (its unscaled
/// squares summing to one) and that the products the reflection forms divide
/// evenly by the scale, so no truncation occurs; the law fails off that grid
/// only by rounding.
pub proof fn lemma_reflect_involution(v: V3, n: V3)
    requires
        (v.x * n.x) % (SCALE as int) == 0,
        (v.y * n.y) % (SCALE as int) == 0,
        (v.z * n.z) % (SCALE as int) == 0,
        n.x * n.x + n.y * n.y + n.z * n.z == (SCALE as int) * (SCALE as int),
        (2 * vdot(v, n) * n.x) % (SCALE as int) == 0,
        (2 * vdot(v, n) * n.y) % (SCALE as int) == 0,
        (2 * vdot(v, n) * n.z) % (SCALE as int) == 0,
        (tdiv(2 * vdot(v, n) * n.x, SCALE as int) * n.x) % (SCALE as int) == 0,
        (tdiv(2 * vdot(v, n) * n.y, SCALE as int) * n.y) % (SCALE as int) == 0,
        (tdiv(2 * vdot(v, n) * n.z, SCALE as int) * n.z) % (SCALE as int) == 0,
    ensures
        vreflect(vreflect(v, n), n) == v,
{
    let sc = (SCALE as int);
    let d = vdot(v, n);
    lemma_tdiv_exact(v.x * n.x, sc);
    lemma_tdiv_exact(v.y * n.y, sc);
    lemma_tdiv_exact(v.z * n.z, sc);
    assert(d * sc == v.x * n.x + v.y * n.y + v.z * n.z) by (nonlinear_arith)
        requires
            d == tdiv(v.x * n.x, sc) + tdiv(v.y * n.y, sc) + tdiv(v.z * n.z, sc),
            tdiv(v.x * n.x, sc) * sc == v.x * n.x,
            tdiv(v.y * n.y, sc) * sc == v.y * n.y,
            tdiv(v.z * n.z, sc) * sc == v.z * n.z,
    ;
    let k = 2 * d;
    lemma_tdiv_exact(k * n.x, sc);
    lemma_tdiv_exact(k * n.y, sc);
    lemma_tdiv_exact(k * n.z, sc);
    let ex = tdiv(k * n.x, sc);
    let ey = tdiv(k * n.y, sc);
    let ez = tdiv(k * n.z, sc);
    assert(fmul(k, n.x) == ex);
    let r = vreflect(v, n);
    assert(r.x == v.x - ex && r.y == v.y - ey && r.z == v.z - ez);
    // Each product of the reflected vector with the normal is still an exact
    // multiple of the scale.
    assert((r.x * n.x) % sc == 0 && r.x * n.x == v.x * n.x - ex * n.x) by (nonlinear_arith)
        requires
            r.x == v.x - ex,
            (v.x * n.x) % sc == 0,
            (ex * n.x) % sc == 0,
            sc == 65536,
    ;
    assert((r.y * n.y) % sc == 0 && r.y * n.y == v.y * n.y - ey * n.y) by (nonlinear_arith)
        requires
            r.y == v.y - ey,
            (v.y * n.y) % sc == 0,
            (ey * n.y) % sc == 0,
            sc == 65536,
    ;
    assert((r.z * n.z) % sc == 0 && r.z * n.z == v.z * n.z - ez * n.z) by (nonlinear_arith)
        requires
            r.z == v.z - ez,
            (v.z * n.z) % sc == 0,
            (ez * n.z) % sc == 0,
            sc == 65536,
    ;
    lemma_tdiv_exact(r.x * n.x, sc);
    lemma_tdiv_exact(r.y * n.y, sc);
    lemma_tdiv_exact(r.z * n.z, sc);
    let d2 = vdot(r, n);
    // The sum of the exact normal products is k times the unit norm.
    assert(ex * n.x + ey * n.y + ez * n.z == k * sc) by (nonlinear_arith)
        requires
            ex * sc == k * n.x,
            ey * sc == k * n.y,
            ez * sc == k * n.z,
            n.x * n.x + n.y * n.y + n.z * n.z == sc * sc,
            sc == 65536,
    ;
    assert(d2 == -d) by (nonlinear_arith)
        requires
            d2 == tdiv(r.x * n.x, sc) + tdiv(r.y * n.y, sc) + tdiv(r.z * n.z, sc),
            tdiv(r.x * n.x, sc) * sc == r.x * n.x,
            tdiv(r.y * n.y, sc) * sc == r.y * n.y,
            tdiv(r.z * n.z, sc) * sc == r.z * n.z,
            r.x * n.x == v.x * n.x - ex * n.x,
            r.y * n.y == v.y * n.y - ey * n.y,
            r.z * n.z == v.z * n.z - ez * n.z,
            ex * n.x + ey * n.y + ez * n.z == k * sc,
            d * sc == v.x * n.x + v.y * n.y + v.z * n.z,
            k == 2 * d,
            sc == 65536,
    ;
    assert(2 * d2 * n.x == -(k * n.x)) by (nonlinear_arith)
        requires
            d2 == -d,
            k == 2 * d,
    ;
    assert(2 * d2 * n.y == -(k * n.y)) by (nonlinear_arith)
        requires
            d2 == -d,
            k == 2 * d,
    ;
    assert(2 * d2 * n.z == -(k * n.z)) by (nonlinear_arith)
        requires
            d2 == -d,
            k == 2 * d,
    ;
    crate::fixed::lemma_tdiv_odd(k * n.x, sc);
    crate::fixed::lemma_tdiv_odd(k * n.y, sc);
    crate::fixed::lemma_tdiv_odd(k * n.z, sc);
    let rr = vreflect(r, n);
    assert(rr.x == r.x - tdiv(2 * d2 * n.x, sc));
    assert(rr.x == v.x && rr.y == v.y && rr.z == v.z);
    assert(rr == v);
}

} // verus!
