//! The composite surface: a list of spheres with closest-hit semantics. The
//! scan keeps a shrinking upper bound, so the nearest surface wins whatever
//! the insertion order.

use vstd::prelude::*;
use crate::fixed::{Fx, SCALE, sabs};
use crate::ray::Ray;
use crate::interval::Interval;
use crate::hittable::{
    Sphere, HitRecord, HitSpec, sphere_hit_spec, sphere_in_range, ray_in_range, hit_matches, T_MAX,
};
use crate::material::mat_wf;

verus! {

/// The tail of the scan: members from index `i` on, tested against the
/// shrinking interval `(tmin, closest)`, with `best` the nearest hit so far.
pub open spec fn list_hit_from(
    objs: Seq<Sphere>,
    i: int,
    ray: Ray,
    tmin: int,
    closest: int,
    best: Option<HitSpec>,
) -> Option<HitSpec>
    decreases objs.len() - i,
{
    if i < 0 || i >= objs.len() {
        best
    } else {
        match sphere_hit_spec(objs[i], ray, tmin, closest) {
            Some(hs) => list_hit_from(objs, i + 1, ray, tmin, hs.t, Some(hs)),
            None => list_hit_from(objs, i + 1, ray, tmin, closest, best),
        }
    }
}

/// The closest hit of the whole list within `(tmin, tmax)`.
pub open spec fn list_hit_spec(objs: Seq<Sphere>, ray: Ray, tmin: int, tmax: int) -> Option<
    HitSpec,
> {
    list_hit_from(objs, 0, ray, tmin, tmax, None)
}

/// An ordered collection of spheres.
pub struct HittableList {
    pub objects: Vec<Sphere>,
}

impl HittableList {
    /// Every member's geometry is in numeric range and its material is
    /// well-formed.
    pub open spec fn wf(&self) -> bool {
        forall|i: int|
            0 <= i < self.objects@.len() ==> sphere_in_range(#[trigger] self.objects@[i]) && mat_wf(
                self.objects@[i].material,
            )
    }

    pub fn new() -> (r: HittableList)
        ensures
            r.objects@.len() == 0,
            r.wf(),
    {
        HittableList { objects: Vec::new() }
    }

    pub fn from(objects: Vec<Sphere>) -> (r: HittableList)
        ensures
            r.objects == objects,
    {
        HittableList { objects }
    }

    pub fn add(&mut self, object: Sphere)
        ensures
            final(self).objects@ == old(self).objects@.push(object),
    {
        self.objects.push(object);
    }

    pub fn clear(&mut self)
        ensures
            final(self).objects@.len() == 0,
            final(self).wf(),
    {
        self.objects.clear();
    }

    /// Whether every member passes the well-formedness checks, so that
    /// callers can establish `wf` at run time.
    pub fn wf_check(&self) -> (r: bool)
        ensures
            r == self.wf(),
    {
        let mut i: usize = 0;
        while i < self.objects.len()
            invariant
                i <= self.objects@.len(),
                forall|k: int|
                    0 <= k < i ==> sphere_in_range(#[trigger] self.objects@[k]) && mat_wf(
                        self.objects@[k].material,
                    ),
            decreases self.objects@.len() - i,
        {
            let s = &self.objects[i];
            let geom_ok = s.center.origin.in_bounds(crate::hittable::GEOM_MAX)
                && s.center.direction.in_bounds(crate::hittable::GEOM_MAX) && -crate::hittable::GEOM_MAX
                <= s.radius.raw && s.radius.raw <= crate::hittable::GEOM_MAX;
            let mat_ok = match &s.material {
                crate::material::Material::Lambertian(l) => 0 <= l.albedo.x.raw && l.albedo.x.raw
                    <= SCALE && 0 <= l.albedo.y.raw && l.albedo.y.raw <= SCALE && 0 <= l.albedo.z.raw
                    && l.albedo.z.raw <= SCALE,
                crate::material::Material::Metal(m) => 0 <= m.albedo.x.raw && m.albedo.x.raw <= SCALE
                    && 0 <= m.albedo.y.raw && m.albedo.y.raw <= SCALE && 0 <= m.albedo.z.raw
                    && m.albedo.z.raw <= SCALE && 0 <= m.fuzz.raw && m.fuzz.raw <= SCALE,
                crate::material::Material::Dielectric(d) => 1 <= d.refraction_index.raw
                    && d.refraction_index.raw <= 16 * SCALE,
            };
            if !(geom_ok && mat_ok) {
                return false;
            }
            i = i + 1;
        }
        true
    }

    /// Intersects the ray against every member, returning the closest hit
    /// within the open interval, independent of member order.
    pub fn hit(&self, ray: Ray, t: Interval) -> (r: Option<HitRecord>)
        requires
            self.wf(),
            ray_in_range(ray),
            sabs(t.min@) <= T_MAX as int,
            sabs(t.max@) <= T_MAX as int,
        ensures
            hit_matches(r, list_hit_spec(self.objects@, ray, t.min@, t.max@)),
    {
        let mut best_hit: Option<HitRecord> = None;
        let mut closest_so_far: Fx = t.max;
        let mut i: usize = 0;
        while i < self.objects.len()
            invariant
                self.wf(),
                ray_in_range(ray),
                sabs(t.min@) <= T_MAX as int,
                sabs(t.max@) <= T_MAX as int,
                i <= self.objects@.len(),
                sabs(closest_so_far@) <= T_MAX as int,
                list_hit_from(
                    self.objects@,
                    i as int,
                    ray,
                    t.min@,
                    closest_so_far@,
                    spec_of_exec(best_hit),
                ) == list_hit_spec(self.objects@, ray, t.min@, t.max@),
            decreases self.objects@.len() - i,
        {
            let obj = &self.objects[i];
            let candidate = obj.hit(ray, Interval::from(t.min, closest_so_far));
            proof {
                lemma_sphere_hit_t_in(
                    self.objects@[i as int],
                    ray,
                    t.min@,
                    closest_so_far@,
                );
            }
            match candidate {
                Some(rec) => {
                    closest_so_far = rec.t;
                    best_hit = Some(rec);
                },
                None => {},
            }
            i = i + 1;
        }
        best_hit
    }
}

/// The spec-level hit an executable record realizes, used only to state the
/// loop invariant of the scan.
pub open spec fn spec_of_exec(r: Option<HitRecord>) -> Option<HitSpec> {
    match r {
        Some(rec) => Some(
            HitSpec {
                p: rec.p@,
                normal: rec.normal@,
                t: rec.t@,
                front_face: rec.front_face,
                material: rec.material,
            },
        ),
        None => None,
    }
}

/// A hit of the scan that starts with no best candidate can only come from a
/// member, and a member reports a hit only for a nondegenerate direction.
pub proof fn lemma_list_hit_dir(
    objs: Seq<Sphere>,
    i: int,
    ray: Ray,
    tmin: int,
    closest: int,
    best: Option<HitSpec>,
)
    requires
        list_hit_from(objs, i, ray, tmin, closest, best) is Some,
        best is None,
    ensures
        crate::vec3::vlen2(ray.direction@) >= 1,
    decreases objs.len() - i,
{
    crate::vec3::lemma_vlen2_nonneg(ray.direction@);
    if i < 0 || i >= objs.len() {
    } else {
        match sphere_hit_spec(objs[i], ray, tmin, closest) {
            Some(hs) => {},
            None => {
                lemma_list_hit_dir(objs, i + 1, ray, tmin, closest, best);
            },
        }
    }
}

/// A hit of the scan that starts with no best candidate carries the material
/// of some member.
pub proof fn lemma_list_hit_mat(
    objs: Seq<Sphere>,
    i: int,
    ray: Ray,
    tmin: int,
    closest: int,
    best: Option<HitSpec>,
)
    requires
        list_hit_from(objs, i, ray, tmin, closest, best) is Some,
        best is Some ==> exists|j: int|
            0 <= j < objs.len() && best.unwrap().material == #[trigger] objs[j].material,
    ensures
        exists|j: int|
            0 <= j < objs.len() && list_hit_from(objs, i, ray, tmin, closest, best).unwrap().material
                == #[trigger] objs[j].material,
    decreases objs.len() - i,
{
    if i < 0 || i >= objs.len() {
    } else {
        match sphere_hit_spec(objs[i], ray, tmin, closest) {
            Some(hs) => {
                assert(hs.material == objs[i].material);
                lemma_list_hit_mat(objs, i + 1, ray, tmin, hs.t, Some(hs));
            },
            None => {
                lemma_list_hit_mat(objs, i + 1, ray, tmin, closest, best);
            },
        }
    }
}

/// A hit returned by a sphere lies strictly inside the query interval.
pub proof fn lemma_sphere_hit_t_in(s: Sphere, ray: Ray, tmin: int, tmax: int)
    ensures
        match sphere_hit_spec(s, ray, tmin, tmax) {
            Some(hs) => tmin < hs.t < tmax,
            None => true,
        },
{
}

/// The parameter a hit carries, or nothing.
pub open spec fn hit_t(h: Option<HitSpec>) -> Option<int> {
    match h {
        Some(hs) => Some(hs.t),
        None => None,
    }
}

/// The two roots of the quadratic come out ordered: the smaller one first.
proof fn lemma_roots_ordered(s: Sphere, ray: Ray)
    ensures
        ({
            let cc = crate::vec3::vadd(
                s.center.origin@,
                crate::vec3::vscale(ray.time@, s.center.direction@),
            );
            let oc = crate::vec3::vsub(cc, ray.origin@);
            let a = crate::vec3::vlen2(ray.direction@);
            let h = crate::vec3::vdot(ray.direction@, oc);
            let c = crate::vec3::vlen2(oc) - crate::fixed::fmul(s.radius@, s.radius@);
            let disc = crate::fixed::fmul(h, h) - crate::fixed::fmul(a, c);
            (disc >= 0 && a >= 1) ==> crate::fixed::fdiv(
                h - crate::fixed::sqrt_floor(disc * (SCALE as int)),
                a,
            ) <= crate::fixed::fdiv(h + crate::fixed::sqrt_floor(disc * (SCALE as int)), a)
        }),
{
    let cc = crate::vec3::vadd(
        s.center.origin@,
        crate::vec3::vscale(ray.time@, s.center.direction@),
    );
    let oc = crate::vec3::vsub(cc, ray.origin@);
    let a = crate::vec3::vlen2(ray.direction@);
    let h = crate::vec3::vdot(ray.direction@, oc);
    let c = crate::vec3::vlen2(oc) - crate::fixed::fmul(s.radius@, s.radius@);
    let disc = crate::fixed::fmul(h, h) - crate::fixed::fmul(a, c);
    if disc >= 0 && a >= 1 {
        let sq = crate::fixed::sqrt_floor(disc * (SCALE as int));
        assert(disc * (SCALE as int) >= 0) by (nonlinear_arith)
            requires
                disc >= 0,
        ;
        crate::fixed::lemma_sqrt_floor_bounds(disc * (SCALE as int));
        assert((h - sq) * (SCALE as int) <= (h + sq) * (SCALE as int)) by (nonlinear_arith)
            requires
                sq >= 0,
        ;
        crate::fixed::lemma_tdiv_mono((h - sq) * (SCALE as int), (h + sq) * (SCALE as int), a);
    }
}

/// A nondegenerate sphere's squared direction is at least one whenever it
/// reports a hit, so its roots behave; shrinking the far end of the interval
/// below the reported parameter erases the hit, and keeping it above
/// preserves the hit exactly.
proof fn lemma_sphere_hit_shrink(s: Sphere, ray: Ray, tmin: int, t1: int, t2: int)
    requires
        t1 <= t2,
    ensures
        match sphere_hit_spec(s, ray, tmin, t2) {
            Some(h2) => {
                &&& h2.t < t1 ==> sphere_hit_spec(s, ray, tmin, t1) == sphere_hit_spec(
                    s,
                    ray,
                    tmin,
                    t2,
                )
                &&& h2.t >= t1 ==> sphere_hit_spec(s, ray, tmin, t1) is None
            },
            None => sphere_hit_spec(s, ray, tmin, t1) is None,
        },
{
    lemma_roots_ordered(s, ray);
    crate::vec3::lemma_vlen2_nonneg(ray.direction@);
}

/// Over two overlapping spheres the scan reports the smaller valid
/// parameter, whichever order the spheres are listed in.
pub proof fn lemma_list_two_order(a: Sphere, b: Sphere, ray: Ray, tmin: int, tmax: int)
    ensures
        hit_t(list_hit_spec(seq![a, b], ray, tmin, tmax)) == hit_t(
            list_hit_spec(seq![b, a], ray, tmin, tmax),
        ),
{
    reveal_with_fuel(list_hit_from, 4);
    let sab = seq![a, b];
    let sba = seq![b, a];
    assert(sab[0] == a && sab[1] == b && sba[0] == b && sba[1] == a);
    assert(sab.len() == 2 && sba.len() == 2);
    let ha = sphere_hit_spec(a, ray, tmin, tmax);
    let hb = sphere_hit_spec(b, ray, tmin, tmax);
    lemma_sphere_hit_t_in(a, ray, tmin, tmax);
    lemma_sphere_hit_t_in(b, ray, tmin, tmax);
    match ha {
        Some(xa) => {
            lemma_sphere_hit_shrink(b, ray, tmin, xa.t, tmax);
            match hb {
                Some(xb) => {
                    lemma_sphere_hit_shrink(a, ray, tmin, xb.t, tmax);
                    lemma_sphere_hit_t_in(b, ray, tmin, xa.t);
                    lemma_sphere_hit_t_in(a, ray, tmin, xb.t);
                },
                None => {
                    lemma_sphere_hit_shrink(a, ray, tmin, tmax, tmax);
                },
            }
        },
        None => {
            match hb {
                Some(xb) => {
                    lemma_sphere_hit_shrink(a, ray, tmin, xb.t, tmax);
                    lemma_sphere_hit_t_in(a, ray, tmin, xb.t);
                },
                None => {},
            }
        },
    }
}

} // verus!
