//! Hit records and the closed set of primitives a scene can hold.

use crate::aabb::{aabb_wf, slab_sat_strict, Aabb};
use crate::color::Color;
use crate::material::{material_wf, Lambertian, Material};
use crate::moving::{lemma_lerp_monotone, lemma_moving_center_bounds, moving_sphere_wf,
    spec_moving_center, MovingSphere};
use crate::num::{SCALE, T_BOUND};
use crate::ray::{ray_wf, Point3, Ray, RAY_BOUND};
use crate::sphere::{lemma_sphere_hit_in_box, spec_sphere_box, spec_sphere_hit, sphere_wf,
    Sphere};
use crate::vector::{spec_dot, vec_in_bounds, Vec3, VEC_BOUND};
use vstd::prelude::*;

verus! {

/// Defines a record data structure that stores the information about a ray
/// hitting an object: the point reached, the surface normal oriented against
/// the incident ray, the ray parameter, the side that was struck, and the
/// material of the surface.
#[derive(Clone, Copy, PartialEq, Eq, Structural, Debug)]
pub struct HitRecord {
    pub point: Point3,
    pub normal: Vec3,
    pub t: i64,
    pub front_face: bool,
    pub material: Material,
}

impl HitRecord {
    /// Used to initialise the record data structure.
    pub fn default() -> (r: Self)
        ensures
            r.point == (Vec3 { x: 0, y: 0, z: 0 }),
            r.normal == (Vec3 { x: 0, y: 0, z: 0 }),
            r.t == 0,
            r.front_face == false,
            r.material == Material::Lambertian(Lambertian { albedo: Vec3 { x: 0, y: 0, z: 0 } }),
    {
        Self {
            point: Point3::new(0, 0, 0),
            normal: Vec3::new(0, 0, 0),
            t: 0,
            front_face: false,
            material: Material::Lambertian(Lambertian::new(Color::new(0, 0, 0))),
        }
    }

    /// Used to set the surface normal: it is flipped, if need be, so that it
    /// opposes the incident ray, and `front_face` records whether the
    /// geometric outward normal already did.
    pub fn set_face_normal(&mut self, ray: &Ray, outward_normal: &Vec3)
        requires
            vec_in_bounds(ray.dir, VEC_BOUND as int),
            vec_in_bounds(*outward_normal, VEC_BOUND as int),
        ensures
            final(self).front_face == (spec_dot(ray.dir, *outward_normal) < 0),
            final(self).normal == if final(self).front_face {
                *outward_normal
            } else {
                Vec3 { x: -outward_normal.x as i64, y: -outward_normal.y as i64, z: -outward_normal.z as i64 }
            },
            final(self).point == old(self).point,
            final(self).t == old(self).t,
            final(self).material == old(self).material,
    {
        self.front_face = ray.direction().dot(*outward_normal) < 0;
        self.normal = if self.front_face {
            *outward_normal
        } else {
            outward_normal.neg()
        };
    }
}

/// A hit record carries a point within the coordinate range, a unit-scaled
/// normal, a parameter within the window range, and a well-formed material.
pub open spec fn hit_record_wf(rec: HitRecord) -> bool {
    &&& vec_in_bounds(rec.point, RAY_BOUND as int)
    &&& vec_in_bounds(rec.normal, SCALE as int)
    &&& -T_BOUND <= rec.t <= T_BOUND
    &&& material_wf(rec.material)
}

/// The closed set of primitives a scene can hold.
#[derive(Clone, Copy, PartialEq, Eq, Structural, Debug)]
pub enum Primitive {
    Sphere(Sphere),
    MovingSphere(MovingSphere),
}

pub open spec fn prim_wf(p: Primitive) -> bool {
    match p {
        Primitive::Sphere(s) => sphere_wf(s),
        Primitive::MovingSphere(m) => moving_sphere_wf(m),
    }
}

/// The given time is one at which this primitive can be evaluated.
pub open spec fn prim_time_ok(p: Primitive, time: int) -> bool {
    match p {
        Primitive::Sphere(_) => true,
        Primitive::MovingSphere(m) => m.time0 <= time <= m.time1,
    }
}

/// The primitive's center at the given time.
pub open spec fn prim_center(p: Primitive, time: int) -> Vec3 {
    match p {
        Primitive::Sphere(s) => s.center,
        Primitive::MovingSphere(m) => spec_moving_center(m, time),
    }
}

pub open spec fn prim_radius(p: Primitive) -> int {
    match p {
        Primitive::Sphere(s) => s.radius as int,
        Primitive::MovingSphere(m) => m.radius as int,
    }
}

pub open spec fn prim_material(p: Primitive) -> Material {
    match p {
        Primitive::Sphere(s) => s.material,
        Primitive::MovingSphere(m) => m.material,
    }
}

/// What intersecting a primitive returns: the sphere model, evaluated at the
/// center the ray's time selects.
pub open spec fn spec_prim_hit(p: Primitive, ray: Ray, tmin: int, tmax: int) -> Option<HitRecord> {
    spec_sphere_hit(prim_center(p, ray.time as int), prim_radius(p), prim_material(p), ray, tmin,
        tmax)
}

/// The box that bounds the primitive throughout `[time0, time1]`.
pub open spec fn spec_prim_box(p: Primitive, time0: int, time1: int) -> Aabb {
    match p {
        Primitive::Sphere(s) => spec_sphere_box(s.center, s.radius as int),
        Primitive::MovingSphere(m) => Aabb::spec_surrounding(
            spec_sphere_box(spec_moving_center(m, time0), m.radius as int),
            spec_sphere_box(spec_moving_center(m, time1), m.radius as int),
        ),
    }
}

impl Primitive {
    /// Intersects a ray with this primitive within the open window
    /// `(t_min, t_max)`.
    pub fn hit(&self, ray: &Ray, t_min: i64, t_max: i64) -> (r: Option<HitRecord>)
        requires
            prim_wf(*self),
            ray_wf(*ray),
            prim_time_ok(*self, ray.time as int),
            -T_BOUND <= t_min <= T_BOUND,
            -T_BOUND <= t_max <= T_BOUND,
        ensures
            r == spec_prim_hit(*self, *ray, t_min as int, t_max as int),
    {
        match self {
            Primitive::Sphere(s) => s.hit(ray, t_min, t_max),
            Primitive::MovingSphere(m) => m.hit(ray, t_min, t_max),
        }
    }

    /// The bounding box of this primitive over `[time0, time1]`; every
    /// primitive of this library is bounded.
    pub fn bounding_box(&self, time0: i64, time1: i64) -> (r: Option<Aabb>)
        requires
            prim_wf(*self),
            prim_time_ok(*self, time0 as int),
            prim_time_ok(*self, time1 as int),
        ensures
            r == Some(spec_prim_box(*self, time0 as int, time1 as int)),
    {
        match self {
            Primitive::Sphere(s) => s.bounding_box(time0, time1),
            Primitive::MovingSphere(m) => m.bounding_box(time0, time1),
        }
    }
}

/// The primitive's bounding box is well formed.
pub proof fn lemma_prim_box_wf(p: Primitive, time0: int, time1: int)
    requires
        prim_wf(p),
        prim_time_ok(p, time0),
        prim_time_ok(p, time1),
    ensures
        aabb_wf(spec_prim_box(p, time0, time1)),
{
    match p {
        Primitive::Sphere(_) => {
        },
        Primitive::MovingSphere(m) => {
            lemma_moving_center_bounds(m, time0);
            lemma_moving_center_bounds(m, time1);
        },
    }
}

/// Any hit a primitive reports within the window lies strictly inside the
/// primitive's bounding box over `[time0, time1]`, as long as the ray's time
/// lies within that window.
pub proof fn lemma_prim_hit_in_box(p: Primitive, ray: Ray, tmin: int, tmax: int, time0: int, time1: int)
    requires
        prim_wf(p),
        ray_wf(ray),
        prim_time_ok(p, ray.time as int),
        prim_time_ok(p, time0),
        prim_time_ok(p, time1),
        time0 <= ray.time <= time1,
        spec_prim_hit(p, ray, tmin, tmax).is_some(),
    ensures
        slab_sat_strict(spec_prim_box(p, time0, time1), ray.orig, ray.dir, tmin, tmax),
{
    match p {
        Primitive::Sphere(s) => {
            lemma_sphere_hit_in_box(s.center, s.radius as int, ray, tmin, tmax);
        },
        Primitive::MovingSphere(m) => {
            let time = ray.time as int;
            lemma_moving_center_bounds(m, time);
            lemma_sphere_hit_in_box(spec_moving_center(m, time), m.radius as int, ray, tmin, tmax);
            lemma_moving_center_bounds(m, time0);
            lemma_moving_center_bounds(m, time1);
            let dd = m.time1 - m.time0;
            lemma_lerp_monotone(m.center0.x as int, m.center1.x as int, time0 - m.time0, time - m.time0, dd);
            lemma_lerp_monotone(m.center0.x as int, m.center1.x as int, time - m.time0, time1 - m.time0, dd);
            lemma_lerp_monotone(m.center0.y as int, m.center1.y as int, time0 - m.time0, time - m.time0, dd);
            lemma_lerp_monotone(m.center0.y as int, m.center1.y as int, time - m.time0, time1 - m.time0, dd);
            lemma_lerp_monotone(m.center0.z as int, m.center1.z as int, time0 - m.time0, time - m.time0, dd);
            lemma_lerp_monotone(m.center0.z as int, m.center1.z as int, time - m.time0, time1 - m.time0, dd);
            let inner = spec_sphere_box(spec_moving_center(m, time), m.radius as int);
            let outer = spec_prim_box(p, time0, time1);
            assert(crate::aabb::aabb_contains(outer, inner));
            crate::aabb::lemma_slab_strict_monotone(inner, outer, ray.orig, ray.dir, tmin, tmax);
        },
    }
}

/// Any hit a primitive reports is well formed and lies strictly inside the
/// window.
pub proof fn lemma_prim_hit_wf(p: Primitive, ray: Ray, tmin: int, tmax: int)
    requires
        prim_wf(p),
        ray_wf(ray),
        prim_time_ok(p, ray.time as int),
        -T_BOUND <= tmin <= T_BOUND,
        -T_BOUND <= tmax <= T_BOUND,
    ensures
        spec_prim_hit(p, ray, tmin, tmax) matches Some(h) ==> hit_record_wf(h) && tmin < h.t
            < tmax && !(ray.dir.x == 0 && ray.dir.y == 0 && ray.dir.z == 0),
{
    let center = prim_center(p, ray.time as int);
    let radius = prim_radius(p);
    match p {
        Primitive::Sphere(_) => {
        },
        Primitive::MovingSphere(m) => {
            lemma_moving_center_bounds(m, ray.time as int);
        },
    }
    crate::sphere::lemma_sphere_hit_values(center, radius, prim_material(p), ray, tmin, tmax);
}

/// The nearest hit a left-to-right scan of the primitives finds: each hit
/// narrows the upper end of the window, so a later primitive replaces the
/// running hit only when it is struck strictly nearer.
pub open spec fn best_hit(prims: Seq<Primitive>, ray: Ray, tmin: int, tmax: int) -> Option<
    HitRecord,
>
    decreases prims.len(),
{
    if prims.len() == 0 {
        None
    } else {
        match spec_prim_hit(prims[0], ray, tmin, tmax) {
            Some(h) => match best_hit(prims.skip(1), ray, tmin, h.t as int) {
                Some(h2) => Some(h2),
                None => Some(h),
            },
            None => best_hit(prims.skip(1), ray, tmin, tmax),
        }
    }
}

/// Scanning a concatenation is scanning the first part and then the second
/// within the window the first part's hit leaves open.
pub proof fn lemma_best_hit_append(s1: Seq<Primitive>, s2: Seq<Primitive>, ray: Ray, tmin: int, tmax: int)
    ensures
        best_hit(s1 + s2, ray, tmin, tmax) == match best_hit(s1, ray, tmin, tmax) {
            Some(h) => match best_hit(s2, ray, tmin, h.t as int) {
                Some(h2) => Some(h2),
                None => Some(h),
            },
            None => best_hit(s2, ray, tmin, tmax),
        },
    decreases s1.len(),
{
    if s1.len() == 0 {
        assert(s1 + s2 =~= s2);
    } else {
        assert((s1 + s2)[0] == s1[0]);
        assert((s1 + s2).skip(1) =~= s1.skip(1) + s2);
        match spec_prim_hit(s1[0], ray, tmin, tmax) {
            Some(h) => {
                lemma_best_hit_append(s1.skip(1), s2, ray, tmin, h.t as int);
            },
            None => {
                lemma_best_hit_append(s1.skip(1), s2, ray, tmin, tmax);
            },
        }
    }
}

/// When no primitive is struck within the window, the scan finds nothing.
pub proof fn lemma_best_hit_all_none(prims: Seq<Primitive>, ray: Ray, tmin: int, tmax: int)
    requires
        forall|i: int| 0 <= i < prims.len() ==> #[trigger] spec_prim_hit(prims[i], ray, tmin, tmax) is None,
    ensures
        best_hit(prims, ray, tmin, tmax) is None,
    decreases prims.len(),
{
    if prims.len() > 0 {
        assert(spec_prim_hit(prims[0], ray, tmin, tmax) is None);
        assert(forall|i: int| 0 <= i < prims.skip(1).len() ==> prims.skip(1)[i] == prims[i + 1]);
        lemma_best_hit_all_none(prims.skip(1), ray, tmin, tmax);
    }
}

/// The parameter of any hit lies strictly inside the window, and the hit is
/// the record the root determines.
pub proof fn lemma_prim_hit_t(p: Primitive, ray: Ray, tmin: int, tmax: int)
    requires
        -T_BOUND <= tmin <= T_BOUND,
        -T_BOUND <= tmax <= T_BOUND,
    ensures
        spec_prim_hit(p, ray, tmin, tmax) matches Some(h) ==> tmin < h.t < tmax
            && crate::sphere::spec_sphere_root(prim_center(p, ray.time as int), prim_radius(p),
            ray, tmin, tmax) == Some(h.t as int),
{
}

/// Narrowing the window: the hit in a narrower window is the wide window's
/// hit when that hit still lies inside, and nothing otherwise.
pub proof fn lemma_prim_hit_narrow(p: Primitive, ray: Ray, tmin: int, t1: int, t2: int)
    requires
        t1 <= t2,
        -T_BOUND <= tmin <= T_BOUND,
        -T_BOUND <= t1 <= T_BOUND,
        -T_BOUND <= t2 <= T_BOUND,
    ensures
        spec_prim_hit(p, ray, tmin, t1) == match spec_prim_hit(p, ray, tmin, t2) {
            Some(h) => if (h.t as int) < t1 {
                Some(h)
            } else {
                None::<HitRecord>
            },
            None => None::<HitRecord>,
        },
{
    let center = prim_center(p, ray.time as int);
    let radius = prim_radius(p);
    crate::sphere::lemma_sphere_root_narrow(center, radius, ray, tmin, t1, t2);
    lemma_prim_hit_t(p, ray, tmin, t1);
    lemma_prim_hit_t(p, ray, tmin, t2);
}

/// What the scan finds, characterized without the fold: a miss means every
/// primitive misses, and a hit is a hit of some primitive that no other
/// primitive beats.
#[verifier::rlimit(100)]
pub proof fn lemma_best_hit_char(s: Seq<Primitive>, ray: Ray, tmin: int, tmax: int)
    requires
        -T_BOUND <= tmin <= T_BOUND,
        -T_BOUND <= tmax <= T_BOUND,
    ensures
        best_hit(s, ray, tmin, tmax) is None ==> forall|i: int|
            0 <= i < s.len() ==> #[trigger] spec_prim_hit(s[i], ray, tmin, tmax) is None,
        best_hit(s, ray, tmin, tmax) matches Some(h) ==> {
            &&& tmin < h.t < tmax
            &&& exists|i: int|
                0 <= i < s.len() && #[trigger] spec_prim_hit(s[i], ray, tmin, tmax) == Some(h)
            &&& forall|i: int|
                0 <= i < s.len() && (#[trigger] spec_prim_hit(s[i], ray, tmin, tmax)) is Some
                    ==> h.t <= spec_prim_hit(s[i], ray, tmin, tmax).unwrap().t
        },
    decreases s.len(),
{
    if s.len() == 0 {
        return ;
    }
    let rest = s.skip(1);
    assert(forall|i: int| 0 <= i < rest.len() ==> rest[i] == s[i + 1]);
    match spec_prim_hit(s[0], ray, tmin, tmax) {
        Some(h0) => {
            lemma_prim_hit_t(s[0], ray, tmin, tmax);
            lemma_best_hit_char(rest, ray, tmin, h0.t as int);
            match best_hit(rest, ray, tmin, h0.t as int) {
                Some(h2) => {
                    assert(best_hit(s, ray, tmin, tmax) == Some(h2));
                    let wi = choose|i: int|
                        0 <= i < rest.len() && #[trigger] spec_prim_hit(rest[i], ray, tmin,
                            h0.t as int) == Some(h2);
                    lemma_prim_hit_narrow(rest[wi], ray, tmin, h0.t as int, tmax);
                    assert(spec_prim_hit(s[wi + 1], ray, tmin, tmax) == Some(h2));
                    assert forall|i: int|
                        0 <= i < s.len() && (#[trigger] spec_prim_hit(s[i], ray, tmin, tmax))
                            is Some implies h2.t <= spec_prim_hit(s[i], ray, tmin,
                        tmax).unwrap().t by {
                        let hi = spec_prim_hit(s[i], ray, tmin, tmax).unwrap();
                        if i == 0 {
                            assert(h2.t < h0.t);
                        } else {
                            lemma_prim_hit_narrow(s[i], ray, tmin, h0.t as int, tmax);
                            if (hi.t as int) < h0.t as int {
                                assert(spec_prim_hit(rest[i - 1], ray, tmin, h0.t as int)
                                    == Some(hi));
                            } else {
                                assert(h2.t < h0.t <= hi.t);
                            }
                        }
                    }
                },
                None => {
                    assert(best_hit(s, ray, tmin, tmax) == Some(h0));
                    assert(spec_prim_hit(s[0], ray, tmin, tmax) == Some(h0));
                    assert forall|i: int|
                        0 <= i < s.len() && (#[trigger] spec_prim_hit(s[i], ray, tmin, tmax))
                            is Some implies h0.t <= spec_prim_hit(s[i], ray, tmin,
                        tmax).unwrap().t by {
                        let hi = spec_prim_hit(s[i], ray, tmin, tmax).unwrap();
                        if i > 0 {
                            lemma_prim_hit_narrow(s[i], ray, tmin, h0.t as int, tmax);
                            if (hi.t as int) < h0.t as int {
                                assert(spec_prim_hit(rest[i - 1], ray, tmin, h0.t as int)
                                    == Some(hi));
                                assert(false);
                            }
                        }
                    }
                },
            }
        },
        None => {
            lemma_best_hit_char(rest, ray, tmin, tmax);
            assert(best_hit(s, ray, tmin, tmax) == best_hit(rest, ray, tmin, tmax));
            if best_hit(s, ray, tmin, tmax) is Some {
                let h = best_hit(rest, ray, tmin, tmax).unwrap();
                let wi = choose|i: int|
                    0 <= i < rest.len() && #[trigger] spec_prim_hit(rest[i], ray, tmin, tmax)
                        == Some(h);
                assert(spec_prim_hit(s[wi + 1], ray, tmin, tmax) == Some(h));
                assert forall|i: int|
                    0 <= i < s.len() && (#[trigger] spec_prim_hit(s[i], ray, tmin, tmax)) is Some
                        implies h.t <= spec_prim_hit(s[i], ray, tmin, tmax).unwrap().t by {
                    if i > 0 {
                        assert(rest[i - 1] == s[i]);
                        assert(spec_prim_hit(rest[i - 1], ray, tmin, tmax) is Some);
                    }
                }
            } else {
                assert forall|i: int| 0 <= i < s.len() implies #[trigger] spec_prim_hit(s[i], ray,
                    tmin, tmax) is None by {
                    if i > 0 {
                        assert(rest[i - 1] == s[i]);
                        assert(spec_prim_hit(rest[i - 1], ray, tmin, tmax) is None);
                    }
                }
            }
        },
    }
}

/// Scanning the same primitives in any order finds a hit under the same
/// circumstances, and at the same parameter: the nearest hit does not depend
/// on the order of the scene's objects.
pub proof fn lemma_best_hit_permutation(s1: Seq<Primitive>, s2: Seq<Primitive>, ray: Ray, tmin: int, tmax: int)
    requires
        s1.to_multiset() == s2.to_multiset(),
        -T_BOUND <= tmin <= T_BOUND,
        -T_BOUND <= tmax <= T_BOUND,
    ensures
        best_hit(s1, ray, tmin, tmax) is Some <==> best_hit(s2, ray, tmin, tmax) is Some,
        (best_hit(s1, ray, tmin, tmax) is Some && best_hit(s2, ray, tmin, tmax) is Some)
            ==> best_hit(s1, ray, tmin, tmax).unwrap().t == best_hit(s2, ray, tmin, tmax).unwrap().t,
{
    lemma_best_hit_char(s1, ray, tmin, tmax);
    lemma_best_hit_char(s2, ray, tmin, tmax);
    s1.to_multiset_ensures();
    s2.to_multiset_ensures();
    lemma_best_hit_some_transfer(s1, s2, ray, tmin, tmax);
    lemma_best_hit_some_transfer(s2, s1, ray, tmin, tmax);
}

/// When the first sequence finds a hit, a permutation of it finds one no
/// farther away.
proof fn lemma_best_hit_some_transfer(s1: Seq<Primitive>, s2: Seq<Primitive>, ray: Ray, tmin: int, tmax: int)
    requires
        s1.to_multiset() == s2.to_multiset(),
        -T_BOUND <= tmin <= T_BOUND,
        -T_BOUND <= tmax <= T_BOUND,
    ensures
        best_hit(s1, ray, tmin, tmax) is Some ==> best_hit(s2, ray, tmin, tmax) is Some
            && best_hit(s2, ray, tmin, tmax).unwrap().t <= best_hit(s1, ray, tmin, tmax).unwrap().t,
{
    lemma_best_hit_char(s1, ray, tmin, tmax);
    lemma_best_hit_char(s2, ray, tmin, tmax);
    s1.to_multiset_ensures();
    s2.to_multiset_ensures();
    if best_hit(s1, ray, tmin, tmax) is Some {
        let h1 = best_hit(s1, ray, tmin, tmax).unwrap();
        let wi = choose|i: int|
            0 <= i < s1.len() && #[trigger] spec_prim_hit(s1[i], ray, tmin, tmax) == Some(h1);
        assert(s1.contains(s1[wi]));
        assert(s2.to_multiset().count(s1[wi]) > 0);
        assert(s2.contains(s1[wi]));
        let wj = choose|j: int| 0 <= j < s2.len() && s2[j] == s1[wi];
        assert(spec_prim_hit(s2[wj], ray, tmin, tmax) == Some(h1));
        if best_hit(s2, ray, tmin, tmax) is None {
            assert(false);
        }
        let h2 = best_hit(s2, ray, tmin, tmax).unwrap();
        assert(h2.t <= h1.t);
    }
}

} // verus!
