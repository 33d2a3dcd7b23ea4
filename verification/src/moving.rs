//! A sphere whose center moves linearly between two positions over a time
//! window, for motion blur. Intersection evaluates the center at the ray's
//! time and reuses the sphere intersection math.

use crate::aabb::Aabb;
use crate::hittable::HitRecord;
use crate::material::{material_wf, Material};
use crate::num::{div_floor, COORD_BOUND, SCALE, T_BOUND};
use crate::ray::{ray_wf, Point3, Ray};
use crate::sphere::{hit_sphere_geom, spec_sphere_box, spec_sphere_hit, sphere_geom_wf};
use crate::vector::{lemma_div_floor_is_spec_div, lemma_mul_bound2, vec_in_bounds, Vec3};
use vstd::prelude::*;

verus! {

/// Defines a geometrically spherical object whose center moves linearly from
/// `center0` at `time0` to `center1` at `time1`.
#[derive(Clone, Copy, PartialEq, Eq, Structural, Debug)]
pub struct MovingSphere {
    pub center0: Point3,
    pub center1: Point3,
    pub time0: i64,
    pub time1: i64,
    pub radius: i64,
    pub material: Material,
}

/// Both centers are within the coordinate range, the radius is positive and
/// bounded, and the time window is nonempty and within the parameter range.
pub open spec fn moving_sphere_wf(ms: MovingSphere) -> bool {
    &&& vec_in_bounds(ms.center0, COORD_BOUND as int)
    &&& vec_in_bounds(ms.center1, COORD_BOUND as int)
    &&& 1 <= ms.radius <= COORD_BOUND
    &&& -T_BOUND <= ms.time0 < ms.time1 <= T_BOUND
    &&& material_wf(ms.material)
}

/// One component of the interpolated center, rounded toward negative
/// infinity.
pub open spec fn spec_lerp(c0: int, c1: int, dt: int, dd: int) -> int {
    c0 + (dt * (c1 - c0)) / dd
}

/// The center at a given time: each component interpolated linearly between
/// the two endpoint centers and rounded toward negative infinity.
pub open spec fn spec_moving_center(ms: MovingSphere, time: int) -> Vec3 {
    Vec3 {
        x: spec_lerp(ms.center0.x as int, ms.center1.x as int, time - ms.time0, ms.time1 - ms.time0) as i64,
        y: spec_lerp(ms.center0.y as int, ms.center1.y as int, time - ms.time0, ms.time1 - ms.time0) as i64,
        z: spec_lerp(ms.center0.z as int, ms.center1.z as int, time - ms.time0, ms.time1 - ms.time0) as i64,
    }
}

/// Within the time window, each interpolated component stays between its two
/// endpoints.
pub proof fn lemma_lerp_between(c0: int, c1: int, dt: int, dd: int)
    requires
        0 <= dt <= dd,
        dd > 0,
    ensures
        c0 <= c1 ==> c0 <= spec_lerp(c0, c1, dt, dd) <= c1,
        c1 <= c0 ==> c1 <= spec_lerp(c0, c1, dt, dd) <= c0,
{
    let q = (dt * (c1 - c0)) / dd;
    crate::sphere::lemma_floor_div_range(dt * (c1 - c0), dd);
    assert((c0 <= c1 ==> 0 <= q <= c1 - c0) && (c1 <= c0 ==> c1 - c0 <= q <= 0))
        by (nonlinear_arith)
        requires
            0 <= dt <= dd,
            dd > 0,
            dd * q <= dt * (c1 - c0) < dd * (q + 1),
    ;
}

/// Interpolation is monotone in time: between two sample times, the center
/// component stays between the components at those times.
pub proof fn lemma_lerp_monotone(c0: int, c1: int, dta: int, dtb: int, dd: int)
    requires
        dta <= dtb,
        dd > 0,
    ensures
        c0 <= c1 ==> spec_lerp(c0, c1, dta, dd) <= spec_lerp(c0, c1, dtb, dd),
        c1 <= c0 ==> spec_lerp(c0, c1, dtb, dd) <= spec_lerp(c0, c1, dta, dd),
{
    if c0 <= c1 {
        assert(dta * (c1 - c0) <= dtb * (c1 - c0)) by (nonlinear_arith)
            requires
                dta <= dtb,
                c0 <= c1,
        ;
        vstd::arithmetic::div_mod::lemma_div_is_ordered(dta * (c1 - c0), dtb * (c1 - c0), dd);
        if c1 <= c0 {
            assert(dtb * (c1 - c0) <= dta * (c1 - c0)) by (nonlinear_arith)
                requires
                    dta <= dtb,
                    c1 <= c0,
            ;
            vstd::arithmetic::div_mod::lemma_div_is_ordered(dtb * (c1 - c0), dta * (c1 - c0), dd);
        }
    } else {
        assert(dtb * (c1 - c0) <= dta * (c1 - c0)) by (nonlinear_arith)
            requires
                dta <= dtb,
                c1 <= c0,
        ;
        vstd::arithmetic::div_mod::lemma_div_is_ordered(dtb * (c1 - c0), dta * (c1 - c0), dd);
    }
}

/// Within the time window the interpolated center stays within the
/// coordinate range.
pub proof fn lemma_moving_center_bounds(ms: MovingSphere, time: int)
    requires
        moving_sphere_wf(ms),
        ms.time0 <= time <= ms.time1,
    ensures
        vec_in_bounds(spec_moving_center(ms, time), COORD_BOUND as int),
        sphere_geom_wf(spec_moving_center(ms, time), ms.radius as int),
        -COORD_BOUND <= spec_lerp(ms.center0.x as int, ms.center1.x as int, time - ms.time0,
            ms.time1 - ms.time0) <= COORD_BOUND,
        -COORD_BOUND <= spec_lerp(ms.center0.y as int, ms.center1.y as int, time - ms.time0,
            ms.time1 - ms.time0) <= COORD_BOUND,
        -COORD_BOUND <= spec_lerp(ms.center0.z as int, ms.center1.z as int, time - ms.time0,
            ms.time1 - ms.time0) <= COORD_BOUND,
{
    lemma_lerp_between(ms.center0.x as int, ms.center1.x as int, time - ms.time0, ms.time1 - ms.time0);
    lemma_lerp_between(ms.center0.y as int, ms.center1.y as int, time - ms.time0, ms.time1 - ms.time0);
    lemma_lerp_between(ms.center0.z as int, ms.center1.z as int, time - ms.time0, ms.time1 - ms.time0);
}

impl MovingSphere {
    /// A moving sphere from its two endpoint centers, its time window, its
    /// radius and its material.
    pub fn new(
        center0: Point3,
        center1: Point3,
        time0: i64,
        time1: i64,
        radius: i64,
        material: Material,
    ) -> (r: Self)
        requires
            vec_in_bounds(center0, COORD_BOUND as int),
            vec_in_bounds(center1, COORD_BOUND as int),
            1 <= radius <= COORD_BOUND,
            -T_BOUND <= time0 < time1 <= T_BOUND,
            material_wf(material),
        ensures
            r == (MovingSphere { center0, center1, time0, time1, radius, material }),
            moving_sphere_wf(r),
    {
        Self { center0, center1, time0, time1, radius, material }
    }

    /// The center at the given time, interpolated linearly between the two
    /// endpoint centers.
    pub fn center(&self, time: i64) -> (r: Point3)
        requires
            moving_sphere_wf(*self),
            self.time0 <= time <= self.time1,
        ensures
            r == spec_moving_center(*self, time as int),
            vec_in_bounds(r, COORD_BOUND as int),
    {
        proof {
            lemma_moving_center_bounds(*self, time as int);
            lemma_mul_bound2(time - self.time0, self.center1.x - self.center0.x,
                2 * T_BOUND as int, 2 * COORD_BOUND as int);
            lemma_mul_bound2(time - self.time0, self.center1.y - self.center0.y,
                2 * T_BOUND as int, 2 * COORD_BOUND as int);
            lemma_mul_bound2(time - self.time0, self.center1.z - self.center0.z,
                2 * T_BOUND as int, 2 * COORD_BOUND as int);
        }
        let dt = (time - self.time0) as i128;
        let dd = (self.time1 - self.time0) as i128;
        let qx = div_floor(dt * ((self.center1.x - self.center0.x) as i128), dd);
        let qy = div_floor(dt * ((self.center1.y - self.center0.y) as i128), dd);
        let qz = div_floor(dt * ((self.center1.z - self.center0.z) as i128), dd);
        proof {
            lemma_div_floor_is_spec_div(dt as int * ((self.center1.x - self.center0.x) as int),
                dd as int, qx as int);
            lemma_div_floor_is_spec_div(dt as int * ((self.center1.y - self.center0.y) as int),
                dd as int, qy as int);
            lemma_div_floor_is_spec_div(dt as int * ((self.center1.z - self.center0.z) as int),
                dd as int, qz as int);
        }
        Vec3::new(
            self.center0.x + qx as i64,
            self.center0.y + qy as i64,
            self.center0.z + qz as i64,
        )
    }

    /// Intersects a ray with this sphere, evaluated at the ray's time,
    /// within the open window `(t_min, t_max)`.
    pub fn hit(&self, ray: &Ray, t_min: i64, t_max: i64) -> (r: Option<HitRecord>)
        requires
            moving_sphere_wf(*self),
            ray_wf(*ray),
            self.time0 <= ray.time <= self.time1,
            -T_BOUND <= t_min <= T_BOUND,
            -T_BOUND <= t_max <= T_BOUND,
        ensures
            r == spec_sphere_hit(spec_moving_center(*self, ray.time as int), self.radius as int,
                self.material, *ray, t_min as int, t_max as int),
    {
        let center = self.center(ray.time());
        proof {
            lemma_moving_center_bounds(*self, ray.time as int);
        }
        hit_sphere_geom(center, self.radius, self.material, ray, t_min, t_max)
    }

    /// The surrounding box of the sphere's padded boxes at the two given
    /// times. It bounds the sphere throughout `[time0, time1]` when both
    /// given times and the ray times lie in the sphere's own window.
    pub fn bounding_box(&self, time0: i64, time1: i64) -> (r: Option<Aabb>)
        requires
            moving_sphere_wf(*self),
            self.time0 <= time0 <= self.time1,
            self.time0 <= time1 <= self.time1,
        ensures
            r == Some(Aabb::spec_surrounding(spec_sphere_box(spec_moving_center(*self, time0 as int), self.radius as int),
                spec_sphere_box(spec_moving_center(*self, time1 as int), self.radius as int))),
    {
        let c0 = self.center(time0);
        let c1 = self.center(time1);
        let pad = self.radius + 1;
        proof {
            lemma_moving_center_bounds(*self, time0 as int);
            lemma_moving_center_bounds(*self, time1 as int);
        }
        let corner = Vec3::new(pad, pad, pad);
        let box0 = Aabb::new(c0.minus(corner), c0.plus(corner));
        let box1 = Aabb::new(c1.minus(corner), c1.plus(corner));
        Some(Aabb::surrounding_box(&box0, &box1))
    }
}

} // verus!
