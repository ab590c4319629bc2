//! Surfaces a ray can strike: the hit record and the sphere, whose
//! intersection is specified exactly, branch for branch, by `sphere_hit_spec`.

use vstd::prelude::*;
use crate::fixed::{
    Fx, SCALE, fmul, fdiv, tdiv, sabs, in_raw, sqrt_floor, lemma_fmul_bounds, lemma_fdiv_coarse,
    lemma_tdiv_mul_exact, lemma_sqrt_floor_bounds,
};
use crate::vec3::{
    Vec3, Point3, V3, vadd, vsub, vneg, vscale, vdivs, vdot, vlen2, vbounded, lemma_vlen2_nonneg,
};
use crate::ray::{Ray, ray_at_spec};
use crate::interval::Interval;
use crate::material::Material;

verus! {

/// Bound on the raw components of scene geometry and ray coordinates: 512
/// world units.
pub const GEOM_MAX: i64 = 33554432;

/// Bound on the raw intersection parameters accepted by `hit`.
pub const T_MAX: i64 = 68719476736;

/// Guard bound for the outward normal; hits whose normal computation leaves
/// this range are dropped rather than misreported.
pub const NORMAL_MAX: i64 = 1073741824;

/// Spec-level mirror of a hit record.
pub ghost struct HitSpec {
    pub p: V3,
    pub normal: V3,
    pub t: int,
    pub front_face: bool,
    pub material: Material,
}

/// The record a ray striking a surface produces: the normal is flipped, if
/// needed, to face against the incoming ray, and `front_face` records whether
/// the geometric outward normal already did.
pub open spec fn hr_spec(p: V3, t: int, dir: V3, material: Material, outward: V3) -> HitSpec {
    let front_face = vdot(dir, outward) < 0;
    HitSpec {
        p,
        normal: if front_face {
            outward
        } else {
            vneg(outward)
        },
        t,
        front_face,
        material,
    }
}

/// The result of a successful intersection.
#[derive(Clone, Copy, PartialEq, Eq, Structural, Debug)]
pub struct HitRecord {
    pub p: Point3,
    pub normal: Vec3,
    pub material: Material,
    pub t: Fx,
    pub front_face: bool,
}

/// Whether an executable hit result realizes a spec-level one.
pub open spec fn hit_matches(r: Option<HitRecord>, hs: Option<HitSpec>) -> bool {
    match r {
        Some(rec) => match hs {
            Some(h) => rec.p@ == h.p && rec.normal@ == h.normal && rec.t@ == h.t
                && rec.front_face == h.front_face && rec.material == h.material,
            None => false,
        },
        None => hs is None,
    }
}

impl HitRecord {
    /// Builds the record, orienting the outward normal against the ray.
    pub fn from(p: Point3, t: Fx, ray: Ray, material: Material, outward_normal: Vec3) -> (r:
        HitRecord)
        requires
            vbounded(ray.direction@, NORMAL_MAX as int),
            vbounded(outward_normal@, NORMAL_MAX as int),
        ensures
            ({
                let h = hr_spec(p@, t@, ray.direction@, material, outward_normal@);
                r.p@ == h.p && r.normal@ == h.normal && r.t@ == h.t && r.front_face == h.front_face
                    && r.material == h.material
            }),
    {
        let front_face = Vec3::dot(ray.direction, outward_normal).raw < 0;
        HitRecord {
            p,
            t,
            material,
            front_face,
            normal: if front_face {
                outward_normal
            } else {
                outward_normal.neg()
            },
        }
    }
}

/// A sphere with a possibly moving center: the center ray's origin is the
/// position at shutter time zero and its direction the displacement over one
/// time unit. A static sphere has zero displacement.
#[derive(Clone, Copy, PartialEq, Eq, Structural, Debug)]
pub struct Sphere {
    pub center: Ray,
    pub radius: Fx,
    pub material: Material,
}

/// Geometry small enough for the intersection arithmetic to stay in range.
pub open spec fn sphere_in_range(s: Sphere) -> bool {
    vbounded(s.center.origin@, GEOM_MAX as int) && vbounded(s.center.direction@, GEOM_MAX as int)
        && sabs(s.radius@) <= GEOM_MAX as int
}

/// A ray the intersection arithmetic accepts.
pub open spec fn ray_in_range(ray: Ray) -> bool {
    vbounded(ray.origin@, GEOM_MAX as int) && vbounded(ray.direction@, GEOM_MAX as int) && 0
        <= ray.time@ <= SCALE as int
}

/// The record of a root accepted at parameter `root`, or nothing when the
/// outward normal leaves the numeric guard range.
pub open spec fn sphere_hit_at(s: Sphere, ray: Ray, cc: V3, root: int) -> Option<HitSpec> {
    let p = ray_at_spec(ray.origin@, ray.direction@, root);
    let outward = vdivs(vsub(p, cc), s.radius@);
    if !vbounded(outward, NORMAL_MAX as int) {
        None
    } else {
        Some(hr_spec(p, root, ray.direction@, s.material, outward))
    }
}

/// Exact mirror of the sphere intersection: the moving center is sampled at
/// the ray's time, the half-b quadratic is solved, the smaller root is tried
/// first, and a root must lie strictly inside the interval.
pub open spec fn sphere_hit_spec(s: Sphere, ray: Ray, tmin: int, tmax: int) -> Option<HitSpec> {
    let cc = vadd(s.center.origin@, vscale(ray.time@, s.center.direction@));
    let oc = vsub(cc, ray.origin@);
    let a = vlen2(ray.direction@);
    let h = vdot(ray.direction@, oc);
    let c = vlen2(oc) - fmul(s.radius@, s.radius@);
    let disc = fmul(h, h) - fmul(a, c);
    if disc < 0 {
        None
    } else if a == 0 || s.radius@ == 0 {
        None
    } else {
        let sq = sqrt_floor(disc * (SCALE as int));
        let r1 = fdiv(h - sq, a);
        let r2 = fdiv(h + sq, a);
        if tmin < r1 < tmax {
            sphere_hit_at(s, ray, cc, r1)
        } else if tmin < r2 < tmax {
            sphere_hit_at(s, ray, cc, r2)
        } else {
            None
        }
    }
}

impl Sphere {
    /// A static sphere; a negative radius is clamped to zero.
    pub fn from(center: Point3, radius: Fx, material: Material) -> (r: Sphere)
        ensures
            r.center.origin == center,
            r.center.direction@ == (V3 { x: 0, y: 0, z: 0 }),
            r.center.time@ == 0,
            r.radius@ == (if radius@ < 0 {
                0
            } else {
                radius@
            }),
            r.material == material,
    {
        let rad = if radius.raw < 0 {
            Fx { raw: 0 }
        } else {
            radius
        };
        Sphere { center: Ray::from(center, Vec3::zeros()), radius: rad, material }
    }

    /// A sphere moving linearly from one center to another over the shutter
    /// interval; a negative radius is clamped to zero.
    pub fn with_time(initial_center: Point3, final_center: Point3, radius: Fx, material: Material)
        -> (r: Sphere)
        requires
            in_raw(final_center@.x - initial_center@.x),
            in_raw(final_center@.y - initial_center@.y),
            in_raw(final_center@.z - initial_center@.z),
        ensures
            r.center.origin == initial_center,
            r.center.direction@ == vsub(final_center@, initial_center@),
            r.center.time@ == 0,
            r.radius@ == (if radius@ < 0 {
                0
            } else {
                radius@
            }),
            r.material == material,
    {
        let rad = if radius.raw < 0 {
            Fx { raw: 0 }
        } else {
            radius
        };
        Sphere {
            center: Ray::from(initial_center, final_center.sub(initial_center)),
            radius: rad,
            material,
        }
    }

    /// Intersects the ray with the sphere inside the open interval `t`,
    /// returning the closest valid root's record or nothing, exactly as
    /// `sphere_hit_spec` prescribes.
    pub fn hit(&self, ray: Ray, t: Interval) -> (r: Option<HitRecord>)
        requires
            sphere_in_range(*self),
            ray_in_range(ray),
            sabs(t.min@) <= T_MAX as int,
            sabs(t.max@) <= T_MAX as int,
        ensures
            hit_matches(r, sphere_hit_spec(*self, ray, t.min@, t.max@)),
    {
        proof {
            lemma_fmul_bounds(ray.time@, self.center.direction@.x, SCALE as int, GEOM_MAX as int);
            lemma_fmul_bounds(ray.time@, self.center.direction@.y, SCALE as int, GEOM_MAX as int);
            lemma_fmul_bounds(ray.time@, self.center.direction@.z, SCALE as int, GEOM_MAX as int);
            assert((SCALE as int) * (GEOM_MAX as int) == 33554432 * (SCALE as int));
            lemma_tdiv_mul_exact(33554432);
        }
        let current_center = self.center.at(ray.time);
        let oc = current_center.sub(ray.origin);
        proof {
            crate::vec3::lemma_vdot_range(ray.direction@, ray.direction@, 33554432, 33554432);
            crate::vec3::lemma_vdot_range(ray.direction@, oc@, 33554432, 100663296);
            crate::vec3::lemma_vdot_range(oc@, oc@, 100663296, 100663296);
            assert((33554432 as int) * (33554432 as int) == 17179869184 * (SCALE as int));
            lemma_tdiv_mul_exact(17179869184);
            assert((33554432 as int) * (100663296 as int) == 51539607552 * (SCALE as int));
            lemma_tdiv_mul_exact(51539607552);
            assert((100663296 as int) * (100663296 as int) == 154618822656 * (SCALE as int));
            lemma_tdiv_mul_exact(154618822656);
            lemma_fmul_bounds(self.radius@, self.radius@, GEOM_MAX as int, GEOM_MAX as int);
        }
        let a = ray.direction.length_squared();
        let h = Vec3::dot(ray.direction, oc);
        let c = oc.length_squared().sub(self.radius.mul(self.radius));
        proof {
            lemma_fmul_bounds(h@, h@, 154618822656, 154618822656);
            assert(154618822656 * 154618822656 == 364791569817010176 * (SCALE as int));
            lemma_tdiv_mul_exact(364791569817010176);
            lemma_fmul_bounds(a@, c@, 51539607552, 481036337152);
            assert(51539607552 * 481036337152 == 378302368699121664 * (SCALE as int));
            lemma_tdiv_mul_exact(378302368699121664);
        }
        let disc = h.mul(h).sub(a.mul(c));
        if disc.raw < 0 {
            return None;
        }
        if a.raw == 0 || self.radius.raw == 0 {
            return None;
        }
        let sqrtd = disc.sqrt();
        proof {
            lemma_sqrt_floor_bounds(disc@ * (SCALE as int));
            assert(disc@ * 65536 <= 743093938516131840 * 65536) by (nonlinear_arith)
                requires
                    0 <= disc@ <= 743093938516131840,
            ;
            assert(sqrtd@ <= 2199023255552) by (nonlinear_arith)
                requires
                    sqrtd@ >= 0,
                    sqrtd@ * sqrtd@ <= 743093938516131840 * 65536,
            ;
            lemma_fdiv_coarse(h@ - sqrtd@, a@);
            lemma_fdiv_coarse(h@ + sqrtd@, a@);
        }
        let r1 = h.sub(sqrtd).div(a);
        let root: Fx;
        if t.surrounds(r1) {
            root = r1;
        } else {
            let r2 = h.add(sqrtd).div(a);
            if t.surrounds(r2) {
                root = r2;
            } else {
                return None;
            }
        }
        proof {
            lemma_fmul_bounds(root@, ray.direction@.x, T_MAX as int, GEOM_MAX as int);
            lemma_fmul_bounds(root@, ray.direction@.y, T_MAX as int, GEOM_MAX as int);
            lemma_fmul_bounds(root@, ray.direction@.z, T_MAX as int, GEOM_MAX as int);
            assert((T_MAX as int) * (GEOM_MAX as int) == 35184372088832 * (SCALE as int));
            lemma_tdiv_mul_exact(35184372088832);
        }
        let p = ray.at(root);
        proof {
            if self.radius@ >= 1 {
                lemma_fdiv_coarse(p@.x - current_center@.x, self.radius@);
                lemma_fdiv_coarse(p@.y - current_center@.y, self.radius@);
                lemma_fdiv_coarse(p@.z - current_center@.z, self.radius@);
            } else {
                lemma_fdiv_coarse(p@.x - current_center@.x, -self.radius@);
                lemma_fdiv_coarse(p@.y - current_center@.y, -self.radius@);
                lemma_fdiv_coarse(p@.z - current_center@.z, -self.radius@);
                assert(fdiv(p@.x - current_center@.x, self.radius@) == -tdiv(
                    (p@.x - current_center@.x) * (SCALE as int),
                    -self.radius@,
                ));
                assert(fdiv(p@.y - current_center@.y, self.radius@) == -tdiv(
                    (p@.y - current_center@.y) * (SCALE as int),
                    -self.radius@,
                ));
                assert(fdiv(p@.z - current_center@.z, self.radius@) == -tdiv(
                    (p@.z - current_center@.z) * (SCALE as int),
                    -self.radius@,
                ));
            }
        }
        let outward = p.sub(current_center).divs(self.radius);
        if !outward.in_bounds(NORMAL_MAX) {
            return None;
        }
        Some(HitRecord::from(p, root, ray, self.material, outward))
    }
}

/// For a sphere at the origin whose radius squares exactly on the grid, a
/// ray fired straight down the vertical axis from outside hits at parameter
/// `distance - radius`, front face, with the exact unit normal pointing away
/// from the center.
pub proof fn lemma_axis_ray_outside(s: Sphere, ray: Ray, rr: int, dz: int, lo: int, hi: int)
    requires
        s.center.origin@ == (V3 { x: 0, y: 0, z: 0 }),
        s.center.direction@ == (V3 { x: 0, y: 0, z: 0 }),
        s.radius@ == rr,
        1 <= rr <= 33554432,
        (rr * rr) % (SCALE as int) == 0,
        ray.origin@ == (V3 { x: 0, y: 0, z: dz }),
        ray.direction@ == (V3 { x: 0, y: 0, z: -(SCALE as int) }),
        ray.time@ == 0,
        rr < dz <= 33554432,
        lo < dz - rr < hi,
    ensures
        match sphere_hit_spec(s, ray, lo, hi) {
            Some(h) => h.t == dz - rr && h.front_face && h.normal == (V3 {
                x: 0,
                y: 0,
                z: SCALE as int,
            }) && h.p == (V3 { x: 0, y: 0, z: rr }),
            None => false,
        },
{
    let sc = (SCALE as int);
    lemma_axis_common(s, ray, rr, dz);
    let h = dz;
    let sq = rr;
    // first root is dz - rr, inside the interval
    assert(((dz - rr) * sc) % sc == 0) by {
        vstd::arithmetic::div_mod::lemma_mod_multiples_basic(dz - rr, sc);
    }
    lemma_tdiv_mul_exact(dz - rr);
    assert(fdiv(h - sq, sc) == dz - rr);
    // the hit point and normal
    lemma_tdiv_mul_exact(-(dz - rr));
    crate::fixed::lemma_tdiv_odd((dz - rr) * sc, sc);
    assert(fmul(dz - rr, -sc) == -(dz - rr)) by {
        assert((dz - rr) * (-sc) == -((dz - rr) * sc)) by (nonlinear_arith);
    }
    assert((rr * sc) % rr == 0) by {
        vstd::arithmetic::div_mod::lemma_mod_multiples_basic(sc, rr);
        assert(sc * rr == rr * sc) by (nonlinear_arith);
    }
    crate::fixed::lemma_tdiv_exact(rr * sc, rr);
    assert(fdiv(rr, rr) == sc) by (nonlinear_arith)
        requires
            tdiv(rr * sc, rr) * rr == rr * sc,
            rr >= 1,
            fdiv(rr, rr) == tdiv(rr * sc, rr),
            sc == 65536,
    ;
    assert(fdiv(0, rr) == 0);
    assert(fmul(-sc, sc) == -sc) by {
        lemma_tdiv_mul_exact(-sc);
        assert((-sc) * sc == (-sc) * sc) by (nonlinear_arith);
    }
    assert(fmul(-sc, 0) == 0);
}

/// A ray starting inside the sphere reports a back face: the returned normal
/// is flipped against the geometric outward normal.
pub proof fn lemma_axis_ray_inside(s: Sphere, ray: Ray, rr: int, ez: int, lo: int, hi: int)
    requires
        s.center.origin@ == (V3 { x: 0, y: 0, z: 0 }),
        s.center.direction@ == (V3 { x: 0, y: 0, z: 0 }),
        s.radius@ == rr,
        1 <= rr <= 33554432,
        (rr * rr) % (SCALE as int) == 0,
        ray.origin@ == (V3 { x: 0, y: 0, z: ez }),
        ray.direction@ == (V3 { x: 0, y: 0, z: -(SCALE as int) }),
        ray.time@ == 0,
        -rr < ez < rr,
        sabs(ez) <= 33554432,
        0 <= lo < ez + rr < hi,
    ensures
        match sphere_hit_spec(s, ray, lo, hi) {
            Some(h) => h.t == ez + rr && !h.front_face && h.normal == (V3 {
                x: 0,
                y: 0,
                z: SCALE as int,
            }) && h.p == (V3 { x: 0, y: 0, z: -rr }),
            None => false,
        },
{
    let sc = (SCALE as int);
    lemma_axis_common(s, ray, rr, ez);
    let h = ez;
    let sq = rr;
    // the first root ez - rr is negative, so it falls outside the interval
    assert(((ez - rr) * sc) % sc == 0) by {
        vstd::arithmetic::div_mod::lemma_mod_multiples_basic(ez - rr, sc);
    }
    lemma_tdiv_mul_exact(ez - rr);
    assert(fdiv(h - sq, sc) == ez - rr);
    assert(!(lo < ez - rr));
    // the second root ez + rr is accepted
    assert(((ez + rr) * sc) % sc == 0) by {
        vstd::arithmetic::div_mod::lemma_mod_multiples_basic(ez + rr, sc);
    }
    lemma_tdiv_mul_exact(ez + rr);
    assert(fdiv(h + sq, sc) == ez + rr);
    lemma_tdiv_mul_exact(-(ez + rr));
    assert(fmul(ez + rr, -sc) == -(ez + rr)) by {
        assert((ez + rr) * (-sc) == -((ez + rr) * sc)) by (nonlinear_arith);
        crate::fixed::lemma_tdiv_odd((ez + rr) * sc, sc);
    }
    assert((rr * sc) % rr == 0) by {
        vstd::arithmetic::div_mod::lemma_mod_multiples_basic(sc, rr);
        assert(sc * rr == rr * sc) by (nonlinear_arith);
    }
    crate::fixed::lemma_tdiv_exact(rr * sc, rr);
    assert(fdiv(-rr, rr) == -sc) by (nonlinear_arith)
        requires
            tdiv(rr * sc, rr) * rr == rr * sc,
            rr >= 1,
            fdiv(-rr, rr) == tdiv(-(rr * sc), rr),
            tdiv(-(rr * sc), rr) == -tdiv(rr * sc, rr),
            sc == 65536,
    ;
    assert(tdiv(-(rr * sc), rr) == -tdiv(rr * sc, rr)) by {
        crate::fixed::lemma_tdiv_odd(rr * sc, rr);
        assert((-rr) * sc == -(rr * sc)) by (nonlinear_arith);
    }
    assert(fdiv(0, rr) == 0);
    assert(fmul(-sc, -sc) == sc) by {
        lemma_tdiv_mul_exact(sc);
        assert((-sc) * (-sc) == sc * sc) by (nonlinear_arith);
    }
    assert(fmul(-sc, 0) == 0);
}

/// Shared algebra of the two axis-ray laws: the quadratic's terms collapse
/// so the discriminant is exactly the squared radius and its root is exact.
proof fn lemma_axis_common(s: Sphere, ray: Ray, rr: int, oz: int)
    requires
        s.center.origin@ == (V3 { x: 0, y: 0, z: 0 }),
        s.center.direction@ == (V3 { x: 0, y: 0, z: 0 }),
        s.radius@ == rr,
        1 <= rr,
        (rr * rr) % (SCALE as int) == 0,
        ray.origin@ == (V3 { x: 0, y: 0, z: oz }),
        ray.direction@ == (V3 { x: 0, y: 0, z: -(SCALE as int) }),
        ray.time@ == 0,
    ensures
        vadd(s.center.origin@, vscale(ray.time@, s.center.direction@)) == (V3 { x: 0, y: 0, z: 0 }),
        vlen2(ray.direction@) == SCALE as int,
        vdot(ray.direction@, vsub(V3 { x: 0, y: 0, z: 0 }, ray.origin@)) == oz,
        fmul(s.radius@, s.radius@) == tdiv(rr * rr, SCALE as int),
        fmul(vdot(ray.direction@, vsub(V3 { x: 0, y: 0, z: 0 }, ray.origin@)), vdot(ray.direction@, vsub(V3 { x: 0, y: 0, z: 0 }, ray.origin@))) == tdiv(oz * oz, SCALE as int),
        vlen2(vsub(V3 { x: 0, y: 0, z: 0 }, ray.origin@)) == tdiv(oz * oz, SCALE as int),
        fmul(SCALE as int, vlen2(vsub(V3 { x: 0, y: 0, z: 0 }, ray.origin@)) - tdiv(rr * rr, SCALE as int)) == vlen2(vsub(V3 { x: 0, y: 0, z: 0 }, ray.origin@)) - tdiv(rr * rr, SCALE as int),
        tdiv(oz * oz, SCALE as int) - (tdiv(oz * oz, SCALE as int) - tdiv(rr * rr, SCALE as int)) == tdiv(rr * rr, SCALE as int),
        sqrt_floor(tdiv(rr * rr, SCALE as int) * (SCALE as int)) == rr,
        tdiv(rr * rr, SCALE as int) >= 0,
{
    let sc = (SCALE as int);
    assert(fmul(0, 0) == 0);
    // squared direction: (-1)^2 is exactly one
    assert(fmul(-sc, -sc) == sc) by {
        lemma_tdiv_mul_exact(sc);
        assert((-sc) * (-sc) == sc * sc) by (nonlinear_arith);
    }
    // dot with oc = (0, 0, -oz): (-1) * (-oz) = oz exactly
    assert(fmul(-sc, -oz) == oz) by {
        lemma_tdiv_mul_exact(oz);
        assert((-sc) * (-oz) == oz * sc) by (nonlinear_arith);
    }
    // |oc|^2 and h^2 agree exactly
    assert(fmul(-oz, -oz) == tdiv(oz * oz, sc)) by {
        assert((-oz) * (-oz) == oz * oz) by (nonlinear_arith);
    }
    assert(fmul(oz, oz) == tdiv(oz * oz, sc));
    // a * c collapses because a is exactly one
    let c = tdiv(oz * oz, sc) - tdiv(rr * rr, sc);
    assert(fmul(sc, c) == c) by {
        lemma_tdiv_mul_exact(c);
        assert(sc * c == c * sc) by (nonlinear_arith);
    }
    // the discriminant is the exact squared radius
    crate::fixed::lemma_tdiv_exact(rr * rr, sc);
    assert(tdiv(rr * rr, sc) * sc == rr * rr);
    assert(sqrt_floor(tdiv(rr * rr, sc) * sc) == rr) by {
        assert(rr * rr < (rr + 1) * (rr + 1)) by (nonlinear_arith)
            requires
                rr >= 1,
        ;
        crate::fixed::lemma_sqrt_floor_unique(rr * rr, rr);
    }
    assert(tdiv(rr * rr, sc) >= 0) by {
        assert(rr * rr > 0) by (nonlinear_arith)
            requires
                rr >= 1,
        ;
        vstd::arithmetic::div_mod::lemma_div_pos_is_pos(rr * rr, sc);
    }
}

} // verus!
