//! Sphere intersection: the half-b quadratic solved in exact integer
//! arithmetic. The intersection routine returns exactly what the
//! `spec_sphere_hit` model says, and any returned hit lies strictly inside
//! the sphere's padded bounding box — the fact that makes pruning by the
//! bounding-volume hierarchy safe.

use crate::aabb::{axis_strict, slab_sat_strict, window_strict, Aabb};
use crate::hittable::HitRecord;
use crate::material::{material_wf, Material};
use crate::num::{div_ceil, div_floor, isqrt, spec_isqrt, COORD_BOUND, SCALE, T_BOUND};
use crate::ray::{ray_wf, spec_at, Point3, Ray};
use crate::vector::{
    lemma_div_floor_is_spec_div, lemma_dot_bound, lemma_dot_self_nonneg, lemma_mul_bound2,
    spec_dot, vec_in_bounds, Vec3,
};
use vstd::prelude::*;

verus! {

/// Defines a geometrically spherical object.
#[derive(Clone, Copy, PartialEq, Eq, Structural, Debug)]
pub struct Sphere {
    pub center: Point3,
    pub radius: i64,
    pub material: Material,
}

/// The center is within the coordinate range and the radius is positive and
/// bounded.
pub open spec fn sphere_geom_wf(center: Vec3, radius: int) -> bool {
    &&& vec_in_bounds(center, COORD_BOUND as int)
    &&& 1 <= radius <= COORD_BOUND
}

pub open spec fn sphere_wf(s: Sphere) -> bool {
    &&& sphere_geom_wf(s.center, s.radius as int)
    &&& material_wf(s.material)
}

/// The vector from the sphere's center to the ray's origin.
pub open spec fn spec_oc(center: Vec3, o: Vec3) -> Vec3 {
    Vec3 { x: (o.x - center.x) as i64, y: (o.y - center.y) as i64, z: (o.z - center.z) as i64 }
}

/// The quadratic coefficient `a`: the squared length of the direction.
pub open spec fn quad_a(ray: Ray) -> int {
    spec_dot(ray.dir, ray.dir)
}

/// The half-b coefficient of the quadratic.
pub open spec fn quad_hb(center: Vec3, ray: Ray) -> int {
    spec_dot(spec_oc(center, ray.orig), ray.dir)
}

/// The constant coefficient of the quadratic.
pub open spec fn quad_c(center: Vec3, radius: int, ray: Ray) -> int {
    spec_dot(spec_oc(center, ray.orig), spec_oc(center, ray.orig)) - radius * radius
}

/// Ceiling division for a positive divisor.
pub open spec fn ceil_div(n: int, d: int) -> int {
    -((-n) / d)
}

/// The quadratic evaluated at the fixed-point parameter `t`, scaled by
/// `SCALE * SCALE`: nonpositive exactly when the exact point at `t / SCALE`
/// lies inside the closed ball.
pub open spec fn quad_at(a: int, hb: int, c: int, t: int) -> int {
    a * t * t + 2 * hb * SCALE * t + c * SCALE * SCALE
}

/// The fixed-point ray parameter at which the sphere is struck, if any: the
/// entry root rounded up, or failing its window and inside-ball checks, the
/// exit root rounded down (never below the entry root).
pub open spec fn spec_sphere_root(center: Vec3, radius: int, ray: Ray, tmin: int, tmax: int) -> Option<int> {
    let a = quad_a(ray);
    if a <= 0 {
        None
    } else {
        let hb = quad_hb(center, ray);
        let c = quad_c(center, radius, ray);
        let disc = hb * hb - a * c;
        if disc < 0 {
            None
        } else {
            let sq = spec_isqrt(disc);
            let c1 = ceil_div(SCALE * (-hb - sq), a);
            let c2f = (SCALE * (-hb + sq)) / a;
            let c2 = if c2f < c1 {
                c1
            } else {
                c2f
            };
            if tmin < c1 < tmax && quad_at(a, hb, c, c1) <= 0 {
                Some(c1)
            } else if tmin < c2 < tmax && quad_at(a, hb, c, c2) <= 0 {
                Some(c2)
            } else {
                None
            }
        }
    }
}

/// The outward unit normal at `p`, scaled to length `SCALE`, each component
/// rounded toward negative infinity.
pub open spec fn spec_outward(center: Vec3, radius: int, p: Vec3) -> Vec3 {
    Vec3 {
        x: (((p.x - center.x) * SCALE) / radius) as i64,
        y: (((p.y - center.y) * SCALE) / radius) as i64,
        z: (((p.z - center.z) * SCALE) / radius) as i64,
    }
}

/// The hit record produced for a strike at fixed-point parameter `t`.
pub open spec fn spec_hit_record(center: Vec3, radius: int, mat: Material, ray: Ray, t: int) -> HitRecord {
    let p = spec_at(ray, t);
    let n0 = spec_outward(center, radius, p);
    let ff = spec_dot(ray.dir, n0) < 0;
    HitRecord {
        point: p,
        normal: if ff {
            n0
        } else {
            Vec3 { x: -n0.x as i64, y: -n0.y as i64, z: -n0.z as i64 }
        },
        t: t as i64,
        front_face: ff,
        material: mat,
    }
}

/// What intersecting a sphere returns.
pub open spec fn spec_sphere_hit(
    center: Vec3,
    radius: int,
    mat: Material,
    ray: Ray,
    tmin: int,
    tmax: int,
) -> Option<HitRecord> {
    match spec_sphere_root(center, radius, ray, tmin, tmax) {
        None => None,
        Some(t) => Some(spec_hit_record(center, radius, mat, ray, t)),
    }
}

/// The padded bounding box of a sphere: one sub-unit of slack on every side
/// absorbs the rounding of hit points.
pub open spec fn spec_sphere_box(center: Vec3, radius: int) -> Aabb {
    Aabb {
        min: Vec3 {
            x: (center.x - (radius + 1)) as i64,
            y: (center.y - (radius + 1)) as i64,
            z: (center.z - (radius + 1)) as i64,
        },
        max: Vec3 {
            x: (center.x + (radius + 1)) as i64,
            y: (center.y + (radius + 1)) as i64,
            z: (center.z + (radius + 1)) as i64,
        },
    }
}

/// `n / den` rounded down sits within a half-open window of width `den`.
pub proof fn lemma_floor_div_range(n: int, den: int)
    requires
        den > 0,
    ensures
        den * (n / den) <= n < den * ((n / den) + 1),
{
    vstd::arithmetic::div_mod::lemma_fundamental_div_mod(n, den);
    assert(den * ((n / den) + 1) == den * (n / den) + den) by (nonlinear_arith);
}

/// A value whose square is bounded by a square is bounded.
proof fn lemma_sq_le(u: int, bound: int)
    requires
        0 <= bound,
        u * u <= bound * bound,
    ensures
        -bound <= u <= bound,
{
    assert(-bound <= u <= bound) by (nonlinear_arith)
        requires
            0 <= bound,
            u * u <= bound * bound,
    ;
}

/// When the quadratic is nonpositive at `t`, the exact point at parameter
/// `t / SCALE` lies within the closed ball: on each axis, the scaled offset
/// from the center is bounded by `radius * SCALE`.
pub proof fn lemma_quad_point_bounds(center: Vec3, radius: int, ray: Ray, t: int)
    requires
        quad_at(quad_a(ray), quad_hb(center, ray), quad_c(center, radius, ray), t) <= 0,
        0 <= radius,
        vec_in_bounds(center, COORD_BOUND as int),
        ray_wf(ray),
    ensures
        -radius * SCALE <= SCALE * (ray.orig.x - center.x) + t * ray.dir.x <= radius * SCALE,
        -radius * SCALE <= SCALE * (ray.orig.y - center.y) + t * ray.dir.y <= radius * SCALE,
        -radius * SCALE <= SCALE * (ray.orig.z - center.z) + t * ray.dir.z <= radius * SCALE,
{
    let ocx = ray.orig.x - center.x;
    let ocy = ray.orig.y - center.y;
    let ocz = ray.orig.z - center.z;
    let dx = ray.dir.x as int;
    let dy = ray.dir.y as int;
    let dz = ray.dir.z as int;
    let xx = t * dx;
    let yy = t * dy;
    let zz = t * dz;
    let u = SCALE * ocx + xx;
    let v = SCALE * ocy + yy;
    let w = SCALE * ocz + zz;
    let a = quad_a(ray);
    let hb = quad_hb(center, ray);
    let c = quad_c(center, radius, ray);
    assert(spec_oc(center, ray.orig).x == ocx && spec_oc(center, ray.orig).y == ocy
        && spec_oc(center, ray.orig).z == ocz);
    assert(u * u == SCALE * SCALE * (ocx * ocx) + 2 * SCALE * (ocx * xx) + xx * xx)
        by (nonlinear_arith)
        requires
            u == SCALE * ocx + xx,
            SCALE == 65536,
    ;
    assert(v * v == SCALE * SCALE * (ocy * ocy) + 2 * SCALE * (ocy * yy) + yy * yy)
        by (nonlinear_arith)
        requires
            v == SCALE * ocy + yy,
            SCALE == 65536,
    ;
    assert(w * w == SCALE * SCALE * (ocz * ocz) + 2 * SCALE * (ocz * zz) + zz * zz)
        by (nonlinear_arith)
        requires
            w == SCALE * ocz + zz,
            SCALE == 65536,
    ;
    assert(xx * xx == (dx * dx) * (t * t) && ocx * xx == (ocx * dx) * t) by (nonlinear_arith)
        requires
            xx == t * dx,
    ;
    assert(yy * yy == (dy * dy) * (t * t) && ocy * yy == (ocy * dy) * t) by (nonlinear_arith)
        requires
            yy == t * dy,
    ;
    assert(zz * zz == (dz * dz) * (t * t) && ocz * zz == (ocz * dz) * t) by (nonlinear_arith)
        requires
            zz == t * dz,
    ;
    assert(a * t * t == (dx * dx) * (t * t) + (dy * dy) * (t * t) + (dz * dz) * (t * t))
        by (nonlinear_arith)
        requires
            a == dx * dx + dy * dy + dz * dz,
    ;
    assert(2 * hb * SCALE * t == 2 * SCALE * ((ocx * dx) * t) + 2 * SCALE * ((ocy * dy) * t) + 2
        * SCALE * ((ocz * dz) * t)) by (nonlinear_arith)
        requires
            hb == ocx * dx + ocy * dy + ocz * dz,
            SCALE == 65536,
    ;
    assert(c * SCALE * SCALE == SCALE * SCALE * (ocx * ocx) + SCALE * SCALE * (ocy * ocy) + SCALE
        * SCALE * (ocz * ocz) - SCALE * SCALE * (radius * radius)) by (nonlinear_arith)
        requires
            c == ocx * ocx + ocy * ocy + ocz * ocz - radius * radius,
            SCALE == 65536,
    ;
    assert((radius * SCALE) * (radius * SCALE) == SCALE * SCALE * (radius * radius))
        by (nonlinear_arith)
        requires
            SCALE == 65536,
    ;
    assert(u * u + v * v + w * w == quad_at(a, hb, c, t) + (radius * SCALE) * (radius * SCALE));
    assert(v * v >= 0 && w * w >= 0 && u * u >= 0) by (nonlinear_arith);
    assert(0 <= radius * SCALE) by (nonlinear_arith)
        requires
            0 <= radius,
            SCALE == 65536,
    ;
    lemma_sq_le(u, radius * SCALE);
    lemma_sq_le(v, radius * SCALE);
    lemma_sq_le(w, radius * SCALE);
}

/// On one axis, a scaled offset within `radius * SCALE` sits strictly inside
/// the slab padded by one unit.
proof fn lemma_box_axis(o: int, cc: int, radius: int, d: int, t: int)
    requires
        -radius * SCALE <= SCALE * (o - cc) + t * d <= radius * SCALE,
        0 <= radius,
    ensures
        axis_strict(o, cc - (radius + 1), cc + (radius + 1), d, t, 1),
{
    assert((SCALE * ((cc - (radius + 1)) - o)) * 1 < t * d && t * d < (SCALE * ((cc + (radius + 1))
        - o)) * 1) by (nonlinear_arith)
        requires
            -radius * SCALE <= SCALE * (o - cc) + t * d <= radius * SCALE,
            0 <= radius,
            SCALE == 65536,
    ;
}

/// Any hit a sphere reports lies strictly inside its padded bounding box:
/// a strict slab witness exists at the reported parameter.
pub proof fn lemma_sphere_hit_in_box(center: Vec3, radius: int, ray: Ray, tmin: int, tmax: int)
    requires
        sphere_geom_wf(center, radius),
        ray_wf(ray),
        spec_sphere_root(center, radius, ray, tmin, tmax).is_some(),
    ensures
        slab_sat_strict(spec_sphere_box(center, radius), ray.orig, ray.dir, tmin, tmax),
{
    let t = spec_sphere_root(center, radius, ray, tmin, tmax).unwrap();
    assert(tmin < t < tmax);
    assert(quad_at(quad_a(ray), quad_hb(center, ray), quad_c(center, radius, ray), t) <= 0);
    lemma_quad_point_bounds(center, radius, ray, t);
    let b = spec_sphere_box(center, radius);
    assert(window_strict(tmin, tmax, t, 1));
    lemma_box_axis(ray.orig.x as int, center.x as int, radius, ray.dir.x as int, t);
    lemma_box_axis(ray.orig.y as int, center.y as int, radius, ray.dir.y as int, t);
    lemma_box_axis(ray.orig.z as int, center.z as int, radius, ray.dir.z as int, t);
    assert(axis_strict(ray.orig.x as int, b.min.x as int, b.max.x as int, ray.dir.x as int, t, 1));
    assert(axis_strict(ray.orig.y as int, b.min.y as int, b.max.y as int, ray.dir.y as int, t, 1));
    assert(axis_strict(ray.orig.z as int, b.min.z as int, b.max.z as int, ray.dir.z as int, t, 1));
}

/// The quadratic evaluated exactly at `t`, in executable arithmetic.
fn quad_at_exec(a: i128, hb: i128, c: i128, t: i128) -> (r: i128)
    requires
        0 < a <= 13510798882111488,
        -27021597764222976 <= hb <= 27021597764222976,
        -54043195528445952 <= c <= 54043195528445952,
        -T_BOUND <= t <= T_BOUND,
    ensures
        r == quad_at(a as int, hb as int, c as int, t as int),
{
    proof {
        lemma_mul_bound2(a as int, t as int, 13510798882111488, T_BOUND as int);
        lemma_mul_bound2(a as int * t as int, t as int, 13510798882111488 * (T_BOUND as int), T_BOUND as int);
        lemma_mul_bound2(2 * hb as int * SCALE, t as int, (2 * 27021597764222976 * 65536) as int, T_BOUND as int);
    }
    a * t * t + 2 * hb * (SCALE as i128) * t + c * (SCALE as i128) * (SCALE as i128)
}

/// Ceiling division, as computed by `div_ceil`, agrees with the spec-level
/// `ceil_div` for a positive divisor.
proof fn lemma_div_ceil_is_spec(num: int, den: int, q: int)
    requires
        den > 0,
        den * (q - 1) < num <= den * q,
    ensures
        q == ceil_div(num, den),
{
    assert(den * (-q) <= -num < den * ((-q) + 1)) by (nonlinear_arith)
        requires
            den > 0,
            den * (q - 1) < num <= den * q,
    ;
    lemma_div_floor_is_spec_div(-num, den, -q);
}

/// Intersects a ray with the sphere of the given center and radius within
/// the open window `(t_min, t_max)`, returning exactly what the model says.
pub fn hit_sphere_geom(
    center: Point3,
    radius: i64,
    material: Material,
    ray: &Ray,
    t_min: i64,
    t_max: i64,
) -> (r: Option<HitRecord>)
    requires
        sphere_geom_wf(center, radius as int),
        ray_wf(*ray),
        -T_BOUND <= t_min <= T_BOUND,
        -T_BOUND <= t_max <= T_BOUND,
    ensures
        r == spec_sphere_hit(center, radius as int, material, *ray, t_min as int, t_max as int),
{
    let oc = ray.origin().minus(center);
    proof {
        assert(oc == spec_oc(center, ray.orig));
        lemma_dot_bound(ray.dir, ray.dir, 67108864, 67108864);
        lemma_dot_bound(oc, ray.dir, 134217728, 67108864);
        lemma_dot_bound(oc, oc, 134217728, 134217728);
        lemma_dot_self_nonneg(ray.dir);
        lemma_dot_self_nonneg(oc);
        lemma_mul_bound2(radius as int, radius as int, COORD_BOUND as int, COORD_BOUND as int);
        assert((radius as int) * (radius as int) >= 0) by (nonlinear_arith)
            requires
                radius >= 1,
        ;
    }
    let a = ray.direction().dot(ray.direction());
    let half_b = oc.dot(ray.direction());
    let c = oc.dot(oc) - (radius as i128) * (radius as i128);
    if a <= 0 {
        return None;
    }
    proof {
        lemma_mul_bound2(half_b as int, half_b as int, 27021597764222976, 27021597764222976);
        lemma_mul_bound2(a as int, c as int, 13510798882111488, 54043195528445952);
    }
    let discriminant = half_b * half_b - a * c;
    if discriminant < 0 {
        return None;
    }
    let sq = isqrt(discriminant as u128);
    proof {
        assert(sq <= 72057594037927936) by (nonlinear_arith)
            requires
                sq * sq <= discriminant,
                discriminant <= 1460333491462920270524202092593152,
        ;
    }
    let sqi = sq as i128;
    let num1 = (SCALE as i128) * (-half_b - sqi);
    let c1 = div_ceil(num1, a);
    let num2 = (SCALE as i128) * (-half_b + sqi);
    let c2f = div_floor(num2, a);
    proof {
        lemma_div_ceil_is_spec(num1 as int, a as int, c1 as int);
        lemma_div_floor_is_spec_div(num2 as int, a as int, c2f as int);
    }
    let c2 = if c2f < c1 {
        c1
    } else {
        c2f
    };
    let tmin_w = t_min as i128;
    let tmax_w = t_max as i128;
    let cand: Option<i128> = if tmin_w < c1 && c1 < tmax_w && quad_at_exec(a, half_b, c, c1) <= 0 {
        Some(c1)
    } else if tmin_w < c2 && c2 < tmax_w && quad_at_exec(a, half_b, c, c2) <= 0 {
        Some(c2)
    } else {
        None
    };
    proof {
        assert(a == quad_a(*ray) && half_b == quad_hb(center, *ray) && c == quad_c(center,
            radius as int, *ray));
        assert(cand matches Some(tt) ==> quad_at(a as int, half_b as int, c as int, tt as int)
            <= 0 && t_min < tt < t_max);
        assert(cand matches Some(t128) ==> spec_sphere_root(center, radius as int, *ray,
            t_min as int, t_max as int) == Some(t128 as int));
        assert(cand is None ==> spec_sphere_root(center, radius as int, *ray, t_min as int,
            t_max as int) is None);
    }
    match cand {
        None => None,
        Some(t128) => {
            let t = t128 as i64;
            let p = ray.at(t);
            proof {
                lemma_quad_point_bounds(center, radius as int, *ray, t as int);
                lemma_at_comp_in_range(ray.orig.x as int, ray.dir.x as int, t as int);
                lemma_at_comp_in_range(ray.orig.y as int, ray.dir.y as int, t as int);
                lemma_at_comp_in_range(ray.orig.z as int, ray.dir.z as int, t as int);
                lemma_point_near_center(center.x as int, ray.orig.x as int, ray.dir.x as int,
                    radius as int, t as int, p.x as int);
                lemma_point_near_center(center.y as int, ray.orig.y as int, ray.dir.y as int,
                    radius as int, t as int, p.y as int);
                lemma_point_near_center(center.z as int, ray.orig.z as int, ray.dir.z as int,
                    radius as int, t as int, p.z as int);
            }
            let nx = div_floor(((p.x as i128) - (center.x as i128)) * (SCALE as i128), radius as i128);
            let ny = div_floor(((p.y as i128) - (center.y as i128)) * (SCALE as i128), radius as i128);
            let nz = div_floor(((p.z as i128) - (center.z as i128)) * (SCALE as i128), radius as i128);
            proof {
                lemma_div_floor_is_spec_div((p.x - center.x) * SCALE, radius as int, nx as int);
                lemma_div_floor_is_spec_div((p.y - center.y) * SCALE, radius as int, ny as int);
                lemma_div_floor_is_spec_div((p.z - center.z) * SCALE, radius as int, nz as int);
                lemma_outward_comp_bound(radius as int, (p.x - center.x) as int, nx as int);
                lemma_outward_comp_bound(radius as int, (p.y - center.y) as int, ny as int);
                lemma_outward_comp_bound(radius as int, (p.z - center.z) as int, nz as int);
            }
            let outward = Vec3::new(nx as i64, ny as i64, nz as i64);
            let mut rec = HitRecord {
                point: p,
                normal: Vec3::new(0, 0, 0),
                t,
                front_face: false,
                material,
            };
            rec.set_face_normal(ray, &outward);
            proof {
                assert(outward == spec_outward(center, radius as int, p));
                assert(rec == spec_hit_record(center, radius as int, material, *ray, t as int));
            }
            Some(rec)
        },
    }
}

/// A point reached along a well-formed ray stays within the `i64` range.
pub proof fn lemma_at_comp_in_range(o: int, d: int, t: int)
    requires
        -67108864 <= o <= 67108864,
        -67108864 <= d <= 67108864,
        -T_BOUND <= t <= T_BOUND,
    ensures
        -70368744194049 - 67108864 <= o + (d * t) / (SCALE as int) <= 70368744194049 + 67108864,
{
    lemma_mul_bound2(d, t, 67108864, T_BOUND as int);
    lemma_floor_div_range(d * t, SCALE as int);
    let q = (d * t) / (SCALE as int);
    assert(-70368744194049 <= q <= 70368744194049) by (nonlinear_arith)
        requires
            SCALE * q <= d * t < SCALE * (q + 1),
            -4611686018427387904 <= d * t <= 4611686018427387904,
            SCALE == 65536,
    ;
}

/// A rounded hit point stays within one unit of the ball: each component of
/// `p - center` is bounded by the radius.
proof fn lemma_point_near_center(cc: int, o: int, d: int, radius: int, t: int, px: int)
    requires
        -radius * SCALE <= SCALE * (o - cc) + t * d <= radius * SCALE,
        px == o + (d * t) / (SCALE as int),
        0 <= radius,
    ensures
        -radius <= px - cc <= radius,
{
    lemma_floor_div_range(d * t, SCALE as int);
    let q = (d * t) / (SCALE as int);
    assert(t * d == d * t) by (nonlinear_arith);
    assert(-radius * SCALE - SCALE < SCALE * (o - cc) + SCALE * q <= radius * SCALE);
    assert(-radius - 1 < o - cc + q <= radius) by (nonlinear_arith)
        requires
            -radius * SCALE - SCALE < SCALE * (o - cc) + SCALE * q <= radius * SCALE,
            SCALE == 65536,
    ;
}

/// The scaled outward offset divided by the radius stays within `SCALE`.
proof fn lemma_outward_comp_bound(radius: int, diff: int, q: int)
    requires
        1 <= radius,
        -radius <= diff <= radius,
        radius * q <= diff * SCALE < radius * (q + 1),
    ensures
        -SCALE <= q <= SCALE,
{
    assert(-SCALE <= q <= SCALE) by (nonlinear_arith)
        requires
            1 <= radius,
            -radius <= diff <= radius,
            radius * q <= diff * SCALE < radius * (q + 1),
            SCALE == 65536,
    ;
}

impl Sphere {
    /// A sphere from its center, radius and material.
    pub fn new(center: Point3, radius: i64, material: Material) -> (r: Self)
        requires
            sphere_geom_wf(center, radius as int),
            material_wf(material),
        ensures
            r == (Sphere { center, radius, material }),
            sphere_wf(r),
    {
        Self { center, radius, material }
    }

    /// Intersects a ray with this sphere within the open window
    /// `(t_min, t_max)`.
    pub fn hit(&self, ray: &Ray, t_min: i64, t_max: i64) -> (r: Option<HitRecord>)
        requires
            sphere_wf(*self),
            ray_wf(*ray),
            -T_BOUND <= t_min <= T_BOUND,
            -T_BOUND <= t_max <= T_BOUND,
        ensures
            r == spec_sphere_hit(self.center, self.radius as int, self.material, *ray,
                t_min as int, t_max as int),
    {
        hit_sphere_geom(self.center, self.radius, self.material, ray, t_min, t_max)
    }

    /// The padded bounding box of this sphere; a sphere is always bounded.
    pub fn bounding_box(&self, time0: i64, time1: i64) -> (r: Option<Aabb>)
        requires
            sphere_wf(*self),
        ensures
            r == Some(spec_sphere_box(self.center, self.radius as int)),
    {
        let pad = self.radius + 1;
        let corner = Vec3::new(pad, pad, pad);
        Some(Aabb::new(self.center.minus(corner), self.center.plus(corner)))
    }
}

/// The values of any hit the model reports: the parameter lies strictly
/// inside the window, the point stays within the ray coordinate range, the
/// normal is unit-scaled, and the material is the sphere's.
pub proof fn lemma_sphere_hit_values(center: Vec3, radius: int, mat: Material, ray: Ray, tmin: int, tmax: int)
    requires
        sphere_geom_wf(center, radius),
        ray_wf(ray),
        -T_BOUND <= tmin <= T_BOUND,
        -T_BOUND <= tmax <= T_BOUND,
    ensures
        spec_sphere_hit(center, radius, mat, ray, tmin, tmax) matches Some(h) ==> {
            &&& vec_in_bounds(h.point, crate::ray::RAY_BOUND as int)
            &&& vec_in_bounds(h.normal, SCALE as int)
            &&& tmin < h.t < tmax
            &&& h.material == mat
            &&& !(ray.dir.x == 0 && ray.dir.y == 0 && ray.dir.z == 0)
        },
{
    if spec_sphere_hit(center, radius, mat, ray, tmin, tmax).is_some() {
        let t = spec_sphere_root(center, radius, ray, tmin, tmax).unwrap();
        let h = spec_hit_record(center, radius, mat, ray, t);
        assert(quad_a(ray) > 0);
        if ray.dir.x == 0 && ray.dir.y == 0 && ray.dir.z == 0 {
            assert(ray.dir.x * ray.dir.x == 0 && ray.dir.y * ray.dir.y == 0 && ray.dir.z
                * ray.dir.z == 0) by (nonlinear_arith)
                requires
                    ray.dir.x == 0 && ray.dir.y == 0 && ray.dir.z == 0,
            ;
            assert(false);
        }
        assert(tmin < t < tmax);
        lemma_quad_point_bounds(center, radius, ray, t);
        lemma_at_comp_in_range(ray.orig.x as int, ray.dir.x as int, t);
        lemma_at_comp_in_range(ray.orig.y as int, ray.dir.y as int, t);
        lemma_at_comp_in_range(ray.orig.z as int, ray.dir.z as int, t);
        let p = spec_at(ray, t);
        lemma_point_near_center(center.x as int, ray.orig.x as int, ray.dir.x as int, radius, t,
            p.x as int);
        lemma_point_near_center(center.y as int, ray.orig.y as int, ray.dir.y as int, radius, t,
            p.y as int);
        lemma_point_near_center(center.z as int, ray.orig.z as int, ray.dir.z as int, radius, t,
            p.z as int);
        lemma_floor_div_range((p.x - center.x) * SCALE, radius);
        lemma_floor_div_range((p.y - center.y) * SCALE, radius);
        lemma_floor_div_range((p.z - center.z) * SCALE, radius);
        lemma_outward_comp_bound(radius, p.x - center.x, ((p.x - center.x) * SCALE) / radius);
        lemma_outward_comp_bound(radius, p.y - center.y, ((p.y - center.y) * SCALE) / radius);
        lemma_outward_comp_bound(radius, p.z - center.z, ((p.z - center.z) * SCALE) / radius);
    }
}

/// Narrowing the window: the hit in a narrower window is the wide window's
/// hit when that hit still lies inside, and nothing otherwise. The candidate
/// parameters and the inside-ball checks do not depend on the window, so only
/// the window tests change.
pub proof fn lemma_sphere_root_narrow(center: Vec3, radius: int, ray: Ray, tmin: int, t1: int, t2: int)
    requires
        t1 <= t2,
    ensures
        spec_sphere_root(center, radius, ray, tmin, t1) == match spec_sphere_root(center, radius,
            ray, tmin, t2) {
            Some(t) => if t < t1 {
                Some(t)
            } else {
                None::<int>
            },
            None => None::<int>,
        },
{
    let a = quad_a(ray);
    if a > 0 {
        let hb = quad_hb(center, ray);
        let c = quad_c(center, radius, ray);
        let disc = hb * hb - a * c;
        if disc >= 0 {
            let sq = spec_isqrt(disc);
            let c1 = ceil_div(SCALE * (-hb - sq), a);
            let c2f = (SCALE * (-hb + sq)) / a;
            let c2 = if c2f < c1 {
                c1
            } else {
                c2f
            };
            assert(c1 <= c2);
        }
    }
}

/// A tangent strike: when the discriminant is exactly zero, the entry and
/// exit candidates coincide, so the model considers exactly one parameter —
/// the double root, rounded up — and reports a hit exactly when that single
/// parameter lies strictly inside the window and passes the inside-ball
/// check.
pub proof fn lemma_tangent_single_root(center: Vec3, radius: int, ray: Ray, tmin: int, tmax: int)
    requires
        quad_a(ray) > 0,
        quad_hb(center, ray) * quad_hb(center, ray) - quad_a(ray) * quad_c(center, radius, ray)
            == 0,
    ensures
        ({
            let a = quad_a(ray);
            let hb = quad_hb(center, ray);
            let c = quad_c(center, radius, ray);
            let t0 = ceil_div(SCALE * (-hb), a);
            &&& (spec_sphere_root(center, radius, ray, tmin, tmax) is Some <==> (tmin < t0 < tmax
                && quad_at(a, hb, c, t0) <= 0))
            &&& (spec_sphere_root(center, radius, ray, tmin, tmax) matches Some(t) ==> t == t0)
        }),
{
    let a = quad_a(ray);
    let hb = quad_hb(center, ray);
    let c = quad_c(center, radius, ray);
    let disc = hb * hb - a * c;
    crate::num::lemma_isqrt_exists(disc as nat);
    let sq = spec_isqrt(disc);
    assert(sq == 0) by (nonlinear_arith)
        requires
            sq >= 0,
            sq * sq <= 0,
    ;
    let n = SCALE * (-hb);
    assert(SCALE * (-hb - sq) == n && SCALE * (-hb + sq) == n);
    let c2f = n / a;
    let c1 = ceil_div(n, a);
    lemma_floor_div_range(n, a);
    lemma_floor_div_range(-n, a);
    assert(c2f <= c1) by (nonlinear_arith)
        requires
            a > 0,
            c1 == -((-n) / a),
            a * c2f <= n,
            a * ((-n) / a) <= -n,
    ;
}

} // verus!
