//! Materials: diffuse, glossy specular, and refractive glass. Scattering is
//! pseudo-random; each contract pins the outgoing ray as an exact function of
//! the hit and of the random draws, named by existential witnesses.

use vstd::prelude::*;
use crate::fixed::{
    Fx, SCALE, fmul, fdiv, tdiv, sabs, in_raw, sqrt_floor, lemma_fmul_bounds,
    lemma_tdiv_mul_exact, lemma_tdiv_bounds, lemma_sqrt_floor_bounds,
};
use crate::vec3::{
    Vec3, V3, vadd, vneg, vscale, vdot, vreflect, vrefract, vnear_zero, vbounded, vstable_unit,
    vunit, vlen2, unit_sample, UNIT_MAX, lemma_vlen2_nonneg,
};
use crate::ray::Ray;
use crate::hittable::HitRecord;
use crate::utils::{RandomStream, rand_scalar};
use crate::color::Color;

verus! {

/// A diffuse material.
#[derive(Clone, Copy, PartialEq, Eq, Structural, Debug)]
pub struct Lambertian {
    pub albedo: Color,
}

/// A glossy specular material; `fuzz` in `[0, 1]` controls roughness.
#[derive(Clone, Copy, PartialEq, Eq, Structural, Debug)]
pub struct Metal {
    pub albedo: Color,
    pub fuzz: Fx,
}

/// A refractive material with the given refraction index.
#[derive(Clone, Copy, PartialEq, Eq, Structural, Debug)]
pub struct Dielectric {
    pub refraction_index: Fx,
}

/// The closed set of material variants.
#[derive(Clone, Copy, PartialEq, Eq, Structural, Debug)]
pub enum Material {
    Lambertian(Lambertian),
    Metal(Metal),
    Dielectric(Dielectric),
}

/// Well-formedness of a material: colors lie in `[0, 1]`, fuzz in `[0, 1]`,
/// and the refraction index positive and at most sixteen units, the numeric
/// cap of the refraction arithmetic.
pub open spec fn color_wf(c: V3) -> bool {
    0 <= c.x <= SCALE as int && 0 <= c.y <= SCALE as int && 0 <= c.z <= SCALE as int
}

pub open spec fn mat_wf(m: Material) -> bool {
    match m {
        Material::Lambertian(l) => color_wf(l.albedo@),
        Material::Metal(mt) => color_wf(mt.albedo@) && 0 <= mt.fuzz@ <= SCALE as int,
        Material::Dielectric(d) => 1 <= d.refraction_index@ <= 16 * (SCALE as int),
    }
}

/// The diffuse scatter direction: the hit normal plus a unit sample, snapped
/// to the bare normal when degenerate.
pub open spec fn lambertian_dir(n: V3, u: V3) -> V3 {
    let d = vadd(n, u);
    if vnear_zero(d) {
        n
    } else {
        d
    }
}

/// The glossy scatter direction: the normalized mirror reflection perturbed
/// by `fuzz` times a unit sample.
pub open spec fn metal_dir(v: V3, n: V3, fuzz: int, u: V3) -> V3 {
    vadd(vunit(vreflect(v, n)), vscale(fuzz, u))
}

/// Schlick's reflectance approximation, in fixed point.
pub open spec fn reflectance_spec(cosine: int, ri: int) -> int {
    let r0 = fdiv(SCALE as int - ri, SCALE as int + ri);
    let r0s = fmul(r0, r0);
    let t = SCALE as int - cosine;
    let t2 = fmul(t, t);
    let t4 = fmul(t2, t2);
    let t5 = fmul(t4, t);
    r0s + fmul(SCALE as int - r0s, t5)
}

/// The glass scatter direction, as a function of the incoming ray, the hit,
/// the refraction index, and the reflectance draw `q`.
pub open spec fn dielectric_dir(dir: V3, n: V3, front_face: bool, index: int, q: int) -> V3 {
    let ri = if front_face {
        fdiv(SCALE as int, index)
    } else {
        index
    };
    let ud = vunit(dir);
    let c0 = vdot(vneg(ud), n);
    let cos = if c0 > SCALE as int {
        SCALE as int
    } else {
        c0
    };
    let s2raw = SCALE as int - fmul(cos, cos);
    let s2 = if s2raw < 0 {
        0
    } else {
        s2raw
    };
    let sin = sqrt_floor(s2 * (SCALE as int));
    let cannot_refract = fmul(ri, sin) > SCALE as int;
    if cannot_refract || reflectance_spec(cos, ri) > q {
        vreflect(ud, n)
    } else {
        vrefract(ud, n, ri)
    }
}

/// The diffuse direction was sampled: some unit sample gives it.
pub open spec fn lambertian_sampled(normal: V3, s: Ray) -> bool {
    exists|u: V3| unit_sample(u) && s.direction@ == lambertian_dir(normal, vstable_unit(u))
}

/// The glossy direction was sampled and points off the surface.
pub open spec fn metal_sampled(dir: V3, normal: V3, fuzz: int, s: Ray) -> bool {
    &&& vdot(s.direction@, normal) > 0
    &&& exists|u: V3|
        unit_sample(u) && s.direction@ == metal_dir(dir, normal, fuzz, vstable_unit(u))
}

/// The glass direction was sampled: some reflectance draw gives it.
pub open spec fn dielectric_sampled(dir: V3, normal: V3, front_face: bool, index: int, s: Ray) -> bool {
    exists|q: int|
        0 <= q < SCALE as int && s.direction@ == dielectric_dir(dir, normal, front_face, index, q)
}

/// When a metal may absorb a ray: the mirror reflection leaves the numeric
/// guard range, degenerates, or — for some unit sample — the fuzzed direction
/// points into the surface.
pub open spec fn metal_absorbed(dir: V3, normal: V3, fuzz: int) -> bool {
    let refl = vreflect(dir, normal);
    ||| !vbounded(refl, 1073741824)
    ||| vlen2(refl) < 1
    ||| exists|u: V3|
        unit_sample(u) && vdot(metal_dir(dir, normal, fuzz, vstable_unit(u)), normal) <= 0
}

/// What a successful scatter promises, variant by variant: where the ray
/// starts, what attenuates it, and the exact outgoing direction as a
/// function of the hit and the call's random draws.
pub open spec fn scatter_some_spec(
    m: Material,
    ray: Ray,
    normal: V3,
    p: V3,
    front_face: bool,
    s: Ray,
    att: V3,
) -> bool {
    &&& s.origin@ == p
    &&& s.time == ray.time
    &&& (m matches Material::Lambertian(l) ==> att == l.albedo@ && lambertian_sampled(normal, s))
    &&& (m matches Material::Metal(mt) ==> att == mt.albedo@ && metal_sampled(
        ray.direction@,
        normal,
        mt.fuzz@,
        s,
    ))
    &&& (m matches Material::Dielectric(d) ==> att == (V3 {
        x: SCALE as int,
        y: SCALE as int,
        z: SCALE as int,
    }) && dielectric_sampled(ray.direction@, normal, front_face, d.refraction_index@, s))
}

/// When absorption is possible at all: only a metal absorbs, and only under
/// `metal_absorbed`.
pub open spec fn scatter_none_spec(m: Material, ray: Ray, normal: V3) -> bool {
    &&& m is Metal
    &&& (m matches Material::Metal(mt) ==> metal_absorbed(ray.direction@, normal, mt.fuzz@))
}

impl Lambertian {
    pub fn new() -> (r: Lambertian)
        ensures
            r.albedo@ == (V3 { x: 0, y: 0, z: 0 }),
    {
        Lambertian { albedo: Vec3::zeros() }
    }

    pub fn from(albedo: Color) -> (r: Lambertian)
        ensures
            r.albedo == albedo,
    {
        Lambertian { albedo }
    }

    /// Diffuse scattering: always scatters, toward the normal plus a random
    /// unit direction, attenuated by the albedo.
    pub fn scatter(&self, ray: Ray, rec: &HitRecord, rs: &mut RandomStream) -> (r: Option<
        (Ray, Color),
    >)
        requires
            vbounded(rec.normal@, UNIT_MAX as int),
        ensures
            match r {
                Some((s, att)) => {
                    &&& att == self.albedo
                    &&& s.origin == rec.p
                    &&& s.time == ray.time
                    &&& exists|u: V3|
                        unit_sample(u) && s.direction@ == lambertian_dir(
                            rec.normal@,
                            vstable_unit(u),
                        )
                },
                None => false,
            },
    {
        let u = Vec3::random_unit_vector(rs);
        let mut scatter_direction = rec.normal.add(u);
        if scatter_direction.near_zero() {
            scatter_direction = rec.normal;
        }
        proof {
            let w = choose|p: V3| unit_sample(p) && u@ == vstable_unit(p);
            assert(unit_sample(w) && scatter_direction@ == lambertian_dir(
                rec.normal@,
                vstable_unit(w),
            ));
        }
        Some((Ray::with_time(rec.p, scatter_direction, ray.time), self.albedo))
    }
}

impl Metal {
    pub fn new() -> (r: Metal)
        ensures
            r.albedo@ == (V3 { x: 0, y: 0, z: 0 }),
            r.fuzz@ == 0,
    {
        Metal { albedo: Vec3::zeros(), fuzz: Fx { raw: 0 } }
    }

    /// Clamps the fuzz to `[0, 1]`.
    pub fn from(albedo: Color, fuzz: Fx) -> (r: Metal)
        ensures
            r.albedo == albedo,
            r.fuzz@ == (if fuzz@ < 0 {
                0
            } else if fuzz@ > SCALE as int {
                SCALE as int
            } else {
                fuzz@
            }),
    {
        let f = if fuzz.raw < 0 {
            Fx { raw: 0 }
        } else if fuzz.raw > SCALE {
            Fx { raw: SCALE }
        } else {
            fuzz
        };
        Metal { albedo, fuzz: f }
    }

    /// Specular scattering: the fuzzed mirror reflection, absorbed when the
    /// result points into the surface or leaves the numeric range.
    pub fn scatter(&self, ray: Ray, rec: &HitRecord, rs: &mut RandomStream) -> (r: Option<
        (Ray, Color),
    >)
        requires
            vbounded(ray.direction@, 33554432),
            vbounded(rec.normal@, UNIT_MAX as int),
            0 <= self.fuzz@ <= SCALE as int,
        ensures
            match r {
                Some((s, att)) => {
                    &&& att == self.albedo
                    &&& scatter_some_spec(
                        Material::Metal(*self),
                        ray,
                        rec.normal@,
                        rec.p@,
                        rec.front_face,
                        s,
                        att@,
                    )
                },
                None => scatter_none_spec(Material::Metal(*self), ray, rec.normal@),
            },
            (self.fuzz@ == 0 && vbounded(vreflect(ray.direction@, rec.normal@), 1073741824)
                && vlen2(vreflect(ray.direction@, rec.normal@)) >= 1 && vdot(
                vunit(vreflect(ray.direction@, rec.normal@)),
                rec.normal@,
            ) > 0) ==> r is Some,
    {
        let reflected = Vec3::reflect(ray.direction, rec.normal);
        if !reflected.in_bounds(1073741824) {
            return None;
        }
        let ls = reflected.length_squared();
        proof {
            lemma_vlen2_nonneg(reflected@);
        }
        if ls.raw < 1 {
            return None;
        }
        let base = Vec3::unit_vector(reflected);
        let u = Vec3::random_unit_vector(rs);
        proof {
            lemma_fmul_bounds(self.fuzz@, u@.x, SCALE as int, UNIT_MAX as int);
            lemma_fmul_bounds(self.fuzz@, u@.y, SCALE as int, UNIT_MAX as int);
            lemma_fmul_bounds(self.fuzz@, u@.z, SCALE as int, UNIT_MAX as int);
            assert((SCALE as int) * (UNIT_MAX as int) == 131072 * (SCALE as int));
            lemma_tdiv_mul_exact(131072);
        }
        let dir = base.add(u.scale(self.fuzz));
        let scattered = Ray::with_time(rec.p, dir, ray.time);
        let d = Vec3::dot(dir, rec.normal);
        proof {
            let w = choose|p: V3| unit_sample(p) && u@ == vstable_unit(p);
            assert(unit_sample(w) && dir@ == metal_dir(
                ray.direction@,
                rec.normal@,
                self.fuzz@,
                vstable_unit(w),
            ));
            if self.fuzz@ == 0 {
                // with zero fuzz the perturbation vanishes and the direction
                // is the bare normalized reflection, whatever was drawn
                assert(0 * vstable_unit(w).x == 0) by (nonlinear_arith);
                assert(0 * vstable_unit(w).y == 0) by (nonlinear_arith);
                assert(0 * vstable_unit(w).z == 0) by (nonlinear_arith);
                assert(fmul(0, vstable_unit(w).x) == 0);
                assert(fmul(0, vstable_unit(w).y) == 0);
                assert(fmul(0, vstable_unit(w).z) == 0);
                assert(dir@ == vunit(vreflect(ray.direction@, rec.normal@)));
            }
        }
        if d.raw > 0 {
            Some((scattered, self.albedo))
        } else {
            None
        }
    }
}

impl Dielectric {
    pub fn new() -> (r: Dielectric)
        ensures
            r.refraction_index@ == 0,
    {
        Dielectric { refraction_index: Fx { raw: 0 } }
    }

    pub fn from(refraction_index: Fx) -> (r: Dielectric)
        ensures
            r.refraction_index == refraction_index,
    {
        Dielectric { refraction_index }
    }

    /// Schlick's reflectance approximation. The second argument is the
    /// refraction ratio of the crossing, which a front-face hit takes to the
    /// reciprocal of the index, so the domain reaches one over one quantum.
    pub fn reflectance(cosine: Fx, refraction_index: Fx) -> (r: Fx)
        requires
            -1572864 <= cosine@ <= SCALE as int,
            0 <= refraction_index@ <= 4294967296,
        ensures
            r@ == reflectance_spec(cosine@, refraction_index@),
    {
        proof {
            lemma_reflectance_fits(cosine@, refraction_index@);
        }
        let r0 = Fx { raw: SCALE }.sub(refraction_index).div(
            Fx { raw: SCALE }.add(refraction_index),
        );
        let r0s = r0.mul(r0);
        let t = Fx { raw: SCALE }.sub(cosine);
        let t2 = t.mul(t);
        let t4 = t2.mul(t2);
        let t5 = t4.mul(t);
        r0s.add(Fx { raw: SCALE }.sub(r0s).mul(t5))
    }

    /// Glass scattering: always scatters, reflecting on total internal
    /// reflection or a reflectance draw, otherwise refracting; glass does not
    /// absorb, so the attenuation is white.
    pub fn scatter(&self, ray: Ray, rec: &HitRecord, rs: &mut RandomStream) -> (r: Option<
        (Ray, Color),
    >)
        requires
            vbounded(ray.direction@, 33554432),
            vlen2(ray.direction@) >= 1,
            vbounded(rec.normal@, UNIT_MAX as int),
            1 <= self.refraction_index@ <= 16 * (SCALE as int),
        ensures
            match r {
                Some((s, att)) => {
                    &&& att@ == (V3 { x: SCALE as int, y: SCALE as int, z: SCALE as int })
                    &&& scatter_some_spec(
                        Material::Dielectric(*self),
                        ray,
                        rec.normal@,
                        rec.p@,
                        rec.front_face,
                        s,
                        att@,
                    )
                },
                None => false,
            },
    {
        let ri = if rec.front_face {
            proof {
                assert((SCALE as int) * (SCALE as int) <= 4294967296 * self.refraction_index@)
                    by (nonlinear_arith)
                    requires
                        self.refraction_index@ >= 1,
                        (SCALE as int) == 65536,
                ;
                lemma_tdiv_bounds(
                    (SCALE as int) * (SCALE as int),
                    self.refraction_index@,
                    4294967296,
                );
                vstd::arithmetic::div_mod::lemma_div_pos_is_pos(
                    (SCALE as int) * (SCALE as int),
                    self.refraction_index@,
                );
            }
            Fx { raw: SCALE }.div(self.refraction_index)
        } else {
            self.refraction_index
        };
        proof {
            assert(0 <= ri@ <= 4294967296);
        }
        let unit_direction = Vec3::unit_vector(ray.direction);
        proof {
            lemma_fmul_bounds(-unit_direction@.x, rec.normal@.x, UNIT_MAX as int, UNIT_MAX as int);
            lemma_fmul_bounds(-unit_direction@.y, rec.normal@.y, UNIT_MAX as int, UNIT_MAX as int);
            lemma_fmul_bounds(-unit_direction@.z, rec.normal@.z, UNIT_MAX as int, UNIT_MAX as int);
            assert((UNIT_MAX as int) * (UNIT_MAX as int) == 262144 * (SCALE as int));
            lemma_tdiv_mul_exact(262144);
        }
        let c0 = Vec3::dot(unit_direction.neg(), rec.normal);
        let cos_theta = if c0.raw > SCALE {
            Fx { raw: SCALE }
        } else {
            c0
        };
        proof {
            lemma_fmul_bounds(cos_theta@, cos_theta@, 786432, 786432);
            assert(786432 * 786432 == 9437184 * (SCALE as int));
            lemma_tdiv_mul_exact(9437184);
        }
        proof {
            crate::vec3::lemma_fmul_sq_nonneg(cos_theta@);
        }
        let s2raw = Fx { raw: SCALE }.sub(cos_theta.mul(cos_theta));
        let s2 = if s2raw.raw < 0 {
            Fx { raw: 0 }
        } else {
            s2raw
        };
        let sin_theta = s2.sqrt();
        proof {
            lemma_sqrt_floor_bounds(s2@ * (SCALE as int));
            assert(s2@ * 65536 <= 65536 * 65536) by (nonlinear_arith)
                requires
                    0 <= s2@ <= 65536,
            ;
            assert(sin_theta@ <= 65536) by (nonlinear_arith)
                requires
                    sin_theta@ >= 0,
                    sin_theta@ * sin_theta@ <= 65536 * 65536,
            ;
            lemma_fmul_bounds(ri@, sin_theta@, 4294967296, 65536);
            assert(4294967296 * 65536 == 4294967296 * (SCALE as int));
            lemma_tdiv_mul_exact(4294967296);
        }
        let cannot_refract = ri.mul(sin_theta).raw > SCALE;
        let q = rand_scalar(rs);
        let direction = if cannot_refract || Dielectric::reflectance(cos_theta, ri).raw > q.raw {
            Vec3::reflect(unit_direction, rec.normal)
        } else {
            Vec3::refract(unit_direction, rec.normal, ri)
        };
        let scattered = Ray::with_time(rec.p, direction, ray.time);
        let att = Vec3::ones();
        proof {
            assert(0 <= q@ < SCALE as int && scattered.direction@ == dielectric_dir(
                ray.direction@,
                rec.normal@,
                rec.front_face,
                self.refraction_index@,
                q@,
            ));
            lemma_dielectric_some(
                *self,
                ray,
                rec.normal@,
                rec.p@,
                rec.front_face,
                scattered,
                att@,
                q@,
            );
        }
        Some((scattered, att))
    }
}

/// Intermediates of the Schlick formula stay in range for the accepted
/// cosine and index ranges.
proof fn lemma_reflectance_fits(cosine: int, ri: int)
    requires
        -1572864 <= cosine <= SCALE as int,
        0 <= ri <= 4294967296,
    ensures
        in_raw(fdiv(SCALE as int - ri, SCALE as int + ri)),
        sabs(fdiv(SCALE as int - ri, SCALE as int + ri)) <= SCALE as int,
        sabs(fmul(fdiv(SCALE as int - ri, SCALE as int + ri), fdiv(SCALE as int - ri, SCALE as int + ri)))
            <= SCALE as int,
        ({
            let t = SCALE as int - cosine;
            let t2 = fmul(t, t);
            let t4 = fmul(t2, t2);
            let t5 = fmul(t4, t);
            &&& 0 <= t2 <= 40960000
            &&& 0 <= t4 <= 25600000000
            &&& sabs(t5) <= 640000000000
            &&& in_raw(fmul(SCALE as int - fmul(
                fdiv(SCALE as int - ri, SCALE as int + ri),
                fdiv(SCALE as int - ri, SCALE as int + ri),
            ), t5))
            &&& sabs(fmul(SCALE as int - fmul(
                fdiv(SCALE as int - ri, SCALE as int + ri),
                fdiv(SCALE as int - ri, SCALE as int + ri),
            ), t5)) <= 1280000000000
        }),
{
    let r0 = fdiv(SCALE as int - ri, SCALE as int + ri);
    // the numerator's magnitude never reaches the denominator's, so the
    // quotient stays within one unit
    assert(-(65536 * (SCALE as int + ri)) <= (SCALE as int - ri) * (SCALE as int) <= 65536 * (
    SCALE as int + ri)) by (nonlinear_arith)
        requires
            0 <= ri,
            (SCALE as int) == 65536,
    ;
    lemma_tdiv_bounds((SCALE as int - ri) * (SCALE as int), SCALE as int + ri, 65536);
    lemma_fmul_bounds(r0, r0, 65536, 65536);
    assert(65536 * 65536 == 65536 * (SCALE as int));
    lemma_tdiv_mul_exact(65536);
    let r0s = fmul(r0, r0);
    let t = SCALE as int - cosine;
    crate::vec3::lemma_fmul_sq_nonneg(t);
    crate::vec3::lemma_fmul_sq_nonneg(fmul(t, t));
    lemma_fmul_bounds(t, t, 1638400, 1638400);
    assert(1638400 * 1638400 == 40960000 * (SCALE as int));
    lemma_tdiv_mul_exact(40960000);
    let t2 = fmul(t, t);
    lemma_fmul_bounds(t2, t2, 40960000, 40960000);
    assert(40960000 * 40960000 == 25600000000 * (SCALE as int));
    lemma_tdiv_mul_exact(25600000000);
    let t4 = fmul(t2, t2);
    lemma_fmul_bounds(t4, t, 25600000000, 1638400);
    assert(25600000000 * 1638400 == 640000000000 * (SCALE as int));
    lemma_tdiv_mul_exact(640000000000);
    let t5 = fmul(t4, t);
    lemma_fmul_bounds(SCALE as int - r0s, t5, 131072, 640000000000);
    assert(131072 * 640000000000 == 1280000000000 * (SCALE as int));
    lemma_tdiv_mul_exact(1280000000000);
}

/// Packaging of the glass scattering facts into the shared predicate.
proof fn lemma_dielectric_some(
    d: Dielectric,
    ray: Ray,
    normal: V3,
    p: V3,
    front_face: bool,
    s: Ray,
    att: V3,
    q: int,
)
    requires
        s.origin@ == p,
        s.time == ray.time,
        att == (V3 { x: SCALE as int, y: SCALE as int, z: SCALE as int }),
        0 <= q < SCALE as int,
        s.direction@ == dielectric_dir(ray.direction@, normal, front_face, d.refraction_index@, q),
    ensures
        scatter_some_spec(Material::Dielectric(d), ray, normal, p, front_face, s, att),
{
}

impl Material {
    /// Dispatch to the variant's scattering rule. Whatever random draws come
    /// back, a scattered ray starts at the hit point, inherits the incoming
    /// ray's time, and carries an attenuation color in `[0, 1]`.
    pub fn scatter(&self, ray: Ray, rec: &HitRecord, rs: &mut RandomStream) -> (r: Option<
        (Ray, Color),
    >)
        requires
            vbounded(ray.direction@, 33554432),
            vlen2(ray.direction@) >= 1,
            vbounded(rec.normal@, UNIT_MAX as int),
            mat_wf(*self),
        ensures
            match r {
                Some((s, att)) => {
                    &&& color_wf(att@)
                    &&& scatter_some_spec(
                        *self,
                        ray,
                        rec.normal@,
                        rec.p@,
                        rec.front_face,
                        s,
                        att@,
                    )
                },
                None => scatter_none_spec(*self, ray, rec.normal@),
            },
            (*self) is Lambertian ==> r is Some,
            (*self) is Dielectric ==> r is Some,
    {
        match self {
            Material::Lambertian(l) => l.scatter(ray, rec, rs),
            Material::Metal(m) => m.scatter(ray, rec, rs),
            Material::Dielectric(d) => d.scatter(ray, rec, rs),
        }
    }
}

/// At normal incidence the Schlick reflectance is exactly the base
/// reflectance `r0 = ((1 - ratio) / (1 + ratio))^2`: the `(1 - cos)^5` term
/// vanishes and contributes nothing.
pub proof fn lemma_reflectance_normal_incidence(ri: int)
    ensures
        reflectance_spec(SCALE as int, ri) == fmul(
            fdiv((SCALE as int) - ri, (SCALE as int) + ri),
            fdiv((SCALE as int) - ri, (SCALE as int) + ri),
        ),
{
    let t = (SCALE as int) - (SCALE as int);
    assert(t == 0);
    assert(fmul(0, 0) == 0);
    let r0 = fdiv((SCALE as int) - ri, (SCALE as int) + ri);
    let r0s = fmul(r0, r0);
    assert(((SCALE as int) - r0s) * 0 == 0);
    assert(fmul((SCALE as int) - r0s, 0) == 0);
}

} // verus!
