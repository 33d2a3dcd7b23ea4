//! The camera: an orthonormal-ish basis built from the view parameters, and
//! per-pixel ray generation with lens offset and a random time for motion
//! blur. The vertical field of view enters as the fixed-point tangent of its
//! half angle.

use crate::definitions::{random_double, random_in_unit_sphere};
use crate::num::{div_floor, SCALE, T_BOUND};
use crate::ray::{ray_wf, Point3, Ray};
use crate::vector::{
    lemma_div_floor_is_spec_div, lemma_mul_bound2, spec_cross, spec_dot, spec_minus, spec_unit,
    vec_in_bounds, Vec3,
};
use vstd::prelude::*;

verus! {

/// Defines a data structure used to store the geometry of the camera.
#[derive(Clone, Copy)]
pub struct Camera {
    pub origin: Point3,
    pub lower_left_corner: Point3,
    pub horizontal: Vec3,
    pub vertical: Vec3,
    pub u: Vec3,
    pub v: Vec3,
    pub lens_radius: i64,
    pub time0: i64,
    pub time1: i64,
}

/// The camera's fields are within the ranges ray generation needs.
pub open spec fn camera_wf(c: Camera) -> bool {
    &&& vec_in_bounds(c.origin, 8388608)
    &&& vec_in_bounds(c.lower_left_corner, 33554432)
    &&& vec_in_bounds(c.horizontal, 8388608)
    &&& vec_in_bounds(c.vertical, 8388608)
    &&& vec_in_bounds(c.u, 262144)
    &&& vec_in_bounds(c.v, 262144)
    &&& 0 <= c.lens_radius <= SCALE
    &&& -T_BOUND <= c.time0 < c.time1 <= T_BOUND
}

/// What `Camera::new` constructs, at the specification level: the basis
/// `(u, v, w)`, the viewport spans at focus distance, and the lower-left
/// corner of the viewport, every division rounded toward negative infinity.
pub open spec fn spec_camera(
    position: Vec3,
    focus: Vec3,
    vup: Vec3,
    half_height: int,
    aspect_ratio: int,
    aperture: int,
    focus_dist: int,
    time0: i64,
    time1: i64,
) -> Camera {
    let w = spec_unit(spec_minus(position, focus));
    let u = spec_unit(spec_cross(vup, w));
    let vraw = spec_cross(w, u);
    let v = Vec3 {
        x: ((vraw.x as int) / (SCALE as int)) as i64,
        y: ((vraw.y as int) / (SCALE as int)) as i64,
        z: ((vraw.z as int) / (SCALE as int)) as i64,
    };
    let viewport_width = (aspect_ratio * (2 * half_height)) / (SCALE as int);
    let hspan = (viewport_width * focus_dist) / (SCALE as int);
    let vspan = ((2 * half_height) * focus_dist) / (SCALE as int);
    let horizontal = Vec3 {
        x: ((u.x * hspan) / (SCALE as int)) as i64,
        y: ((u.y * hspan) / (SCALE as int)) as i64,
        z: ((u.z * hspan) / (SCALE as int)) as i64,
    };
    let vertical = Vec3 {
        x: ((v.x * vspan) / (SCALE as int)) as i64,
        y: ((v.y * vspan) / (SCALE as int)) as i64,
        z: ((v.z * vspan) / (SCALE as int)) as i64,
    };
    let wfd = Vec3 {
        x: ((w.x * focus_dist) / (SCALE as int)) as i64,
        y: ((w.y * focus_dist) / (SCALE as int)) as i64,
        z: ((w.z * focus_dist) / (SCALE as int)) as i64,
    };
    let lower_left_corner = Vec3 {
        x: (position.x - horizontal.x / 2 - vertical.x / 2 - wfd.x) as i64,
        y: (position.y - horizontal.y / 2 - vertical.y / 2 - wfd.y) as i64,
        z: (position.z - horizontal.z / 2 - vertical.z / 2 - wfd.z) as i64,
    };
    Camera {
        origin: position,
        lower_left_corner,
        horizontal,
        vertical,
        u,
        v,
        lens_radius: (aperture / 2) as i64,
        time0,
        time1,
    }
}

/// The ray cast toward viewport point `(s, t)` for a given lens sample and
/// time, at the specification level: the lens sample scaled by the lens
/// radius offsets the origin within the lens, and the direction aims at the
/// viewport point from that offset origin.
pub open spec fn spec_get_ray(c: Camera, s: i64, t: i64, lens_sample: Vec3, time: i64) -> Ray {
    let rd = Vec3 {
        x: ((lens_sample.x * c.lens_radius) / (SCALE as int)) as i64,
        y: ((lens_sample.y * c.lens_radius) / (SCALE as int)) as i64,
        z: ((lens_sample.z * c.lens_radius) / (SCALE as int)) as i64,
    };
    let offset = Vec3 {
        x: (((c.u.x * rd.x) / (SCALE as int)) + ((c.v.x * rd.y) / (SCALE as int))) as i64,
        y: (((c.u.y * rd.x) / (SCALE as int)) + ((c.v.y * rd.y) / (SCALE as int))) as i64,
        z: (((c.u.z * rd.x) / (SCALE as int)) + ((c.v.z * rd.y) / (SCALE as int))) as i64,
    };
    let orig = Vec3 {
        x: (c.origin.x + offset.x) as i64,
        y: (c.origin.y + offset.y) as i64,
        z: (c.origin.z + offset.z) as i64,
    };
    let sh = Vec3 {
        x: ((c.horizontal.x * s) / (SCALE as int)) as i64,
        y: ((c.horizontal.y * s) / (SCALE as int)) as i64,
        z: ((c.horizontal.z * s) / (SCALE as int)) as i64,
    };
    let tv = Vec3 {
        x: ((c.vertical.x * t) / (SCALE as int)) as i64,
        y: ((c.vertical.y * t) / (SCALE as int)) as i64,
        z: ((c.vertical.z * t) / (SCALE as int)) as i64,
    };
    let dir = Vec3 {
        x: (c.lower_left_corner.x + sh.x + tv.x - orig.x) as i64,
        y: (c.lower_left_corner.y + sh.y + tv.y - orig.y) as i64,
        z: (c.lower_left_corner.z + sh.z + tv.z - orig.z) as i64,
    };
    Ray { orig, dir, time }
}

/// A quotient by `SCALE` of a bounded numerator is bounded.
proof fn lemma_scaled_quot_bound(num: int, q: int, mb: int)
    requires
        0 <= mb,
        -(65536 * mb) <= num <= 65536 * mb,
        65536 * q <= num < 65536 * (q + 1),
    ensures
        -mb - 1 <= q <= mb,
        num >= 0 ==> q >= 0,
{
    assert(-mb - 1 <= q <= mb && (num >= 0 ==> q >= 0)) by (nonlinear_arith)
        requires
            0 <= mb,
            -(65536 * mb) <= num <= 65536 * mb,
            65536 * q <= num < 65536 * (q + 1),
    ;
}

/// Halving a bounded value keeps it bounded.
proof fn lemma_half_bound(num: int, q: int, mb: int)
    requires
        0 <= mb,
        -mb <= num <= mb,
        2 * q <= num < 2 * (q + 1),
    ensures
        -mb <= q <= mb,
{
    assert(-mb <= q <= mb) by (nonlinear_arith)
        requires
            0 <= mb,
            -mb <= num <= mb,
            2 * q <= num < 2 * (q + 1),
    ;
}

impl Camera {
    /// Used to set the geometry of the camera: view basis from the look-from
    /// point, the look-at point and the up vector; viewport size from the
    /// tangent of the half field of view, the aspect ratio and the focus
    /// distance; lens radius from the aperture; and the time window rays
    /// sample. The cap on the tangent–aspect product is a fixed-point range
    /// limit: it keeps every viewport span within the coordinate range the
    /// intersection routines accept (about a 58-degree vertical field at a
    /// 16:9 aspect; a wider field fits at a narrower aspect).
    pub fn new(
        position: &Point3,
        focus: &Point3,
        vup: &Vec3,
        half_height: i64,
        aspect_ratio: i64,
        aperture: i64,
        focus_dist: i64,
        time0: i64,
        time1: i64,
    ) -> (r: Camera)
        requires
            vec_in_bounds(*position, 8388608),
            vec_in_bounds(*focus, 8388608),
            vec_in_bounds(*vup, 1048576),
            !(position.x == focus.x && position.y == focus.y && position.z == focus.z),
            ({
                let w = spec_unit(spec_minus(*position, *focus));
                let c = spec_cross(*vup, w);
                !(c.x == 0 && c.y == 0 && c.z == 0)
            }),
            1 <= half_height <= SCALE,
            1 <= aspect_ratio <= 16 * SCALE,
            half_height * aspect_ratio <= SCALE * SCALE,
            0 <= aperture <= 2 * SCALE,
            1 <= focus_dist <= 1048576,
            -T_BOUND <= time0 < time1 <= T_BOUND,
        ensures
            r == spec_camera(*position, *focus, *vup, half_height as int, aspect_ratio as int,
                aperture as int, focus_dist as int, time0, time1),
            camera_wf(r),
    {
        let w = Vec3::unit_vector(position.minus(*focus));
        let cuw = vup.cross(w);
        proof {
            lemma_mul_bound2(vup.x as int, w.y as int, 1048576, SCALE as int);
            lemma_mul_bound2(vup.x as int, w.z as int, 1048576, SCALE as int);
            lemma_mul_bound2(vup.y as int, w.x as int, 1048576, SCALE as int);
            lemma_mul_bound2(vup.y as int, w.z as int, 1048576, SCALE as int);
            lemma_mul_bound2(vup.z as int, w.x as int, 1048576, SCALE as int);
            lemma_mul_bound2(vup.z as int, w.y as int, 1048576, SCALE as int);
        }
        let u = Vec3::unit_vector(cuw);
        let vraw = w.cross(u);
        proof {
            lemma_mul_bound2(w.x as int, u.y as int, SCALE as int, SCALE as int);
            lemma_mul_bound2(w.x as int, u.z as int, SCALE as int, SCALE as int);
            lemma_mul_bound2(w.y as int, u.x as int, SCALE as int, SCALE as int);
            lemma_mul_bound2(w.y as int, u.z as int, SCALE as int, SCALE as int);
            lemma_mul_bound2(w.z as int, u.x as int, SCALE as int, SCALE as int);
            lemma_mul_bound2(w.z as int, u.y as int, SCALE as int, SCALE as int);
        }
        let vx = div_floor(vraw.x as i128, SCALE as i128);
        let vy = div_floor(vraw.y as i128, SCALE as i128);
        let vz = div_floor(vraw.z as i128, SCALE as i128);
        proof {
            lemma_div_floor_is_spec_div(vraw.x as int, SCALE as int, vx as int);
            lemma_div_floor_is_spec_div(vraw.y as int, SCALE as int, vy as int);
            lemma_div_floor_is_spec_div(vraw.z as int, SCALE as int, vz as int);
            lemma_scaled_quot_bound(vraw.x as int, vx as int, 2 * SCALE as int);
            lemma_scaled_quot_bound(vraw.y as int, vy as int, 2 * SCALE as int);
            lemma_scaled_quot_bound(vraw.z as int, vz as int, 2 * SCALE as int);
        }
        let v = Vec3::new(vx as i64, vy as i64, vz as i64);
        proof {
            lemma_mul_bound2(aspect_ratio as int, 2 * half_height as int, 16 * SCALE as int,
                2 * SCALE as int);
            assert(aspect_ratio * (2 * half_height) <= 2 * (SCALE as int) * SCALE)
                by (nonlinear_arith)
                requires
                    half_height * aspect_ratio <= SCALE * SCALE,
                    1 <= half_height,
                    1 <= aspect_ratio,
            ;
            assert(aspect_ratio * (2 * half_height) >= 0) by (nonlinear_arith)
                requires
                    1 <= half_height,
                    1 <= aspect_ratio,
            ;
        }
        let vw = div_floor((aspect_ratio as i128) * (2 * (half_height as i128)), SCALE as i128);
        proof {
            lemma_div_floor_is_spec_div(aspect_ratio as int * (2 * half_height), SCALE as int,
                vw as int);
            lemma_scaled_quot_bound(aspect_ratio as int * (2 * half_height), vw as int,
                2 * SCALE as int);
        }
        proof {
            lemma_mul_bound2(vw as int, focus_dist as int, 2 * SCALE as int, 1048576);
        }
        let hspan = div_floor((vw as i128) * (focus_dist as i128), SCALE as i128);
        proof {
            lemma_div_floor_is_spec_div(vw as int * focus_dist, SCALE as int, hspan as int);
            lemma_scaled_quot_bound(vw as int * focus_dist, hspan as int, (2 * 1048576) as int);
        }
        proof {
            lemma_mul_bound2(2 * half_height as int, focus_dist as int, 2 * SCALE as int, 1048576);
        }
        let vspan = div_floor((2 * (half_height as i128)) * (focus_dist as i128), SCALE as i128);
        proof {
            lemma_div_floor_is_spec_div(2 * half_height * focus_dist, SCALE as int, vspan as int);
            lemma_scaled_quot_bound(2 * half_height * focus_dist, vspan as int, (2 * 1048576) as int);
        }
        let horizontal = camera_axis_scale(u, hspan as i64, Ghost(2097152));
        let vertical = camera_axis_scale(v, vspan as i64, Ghost(2097152));
        let wfd = camera_axis_scale(w, focus_dist, Ghost(1048576));
        let hx = div_floor(horizontal.x as i128, 2);
        let hy = div_floor(horizontal.y as i128, 2);
        let hz = div_floor(horizontal.z as i128, 2);
        let vvx = div_floor(vertical.x as i128, 2);
        let vvy = div_floor(vertical.y as i128, 2);
        let vvz = div_floor(vertical.z as i128, 2);
        proof {
            lemma_div_floor_is_spec_div(horizontal.x as int, 2, hx as int);
            lemma_div_floor_is_spec_div(horizontal.y as int, 2, hy as int);
            lemma_div_floor_is_spec_div(horizontal.z as int, 2, hz as int);
            lemma_div_floor_is_spec_div(vertical.x as int, 2, vvx as int);
            lemma_div_floor_is_spec_div(vertical.y as int, 2, vvy as int);
            lemma_div_floor_is_spec_div(vertical.z as int, 2, vvz as int);
            lemma_half_bound(horizontal.x as int, hx as int, 8388608);
            lemma_half_bound(horizontal.y as int, hy as int, 8388608);
            lemma_half_bound(horizontal.z as int, hz as int, 8388608);
            lemma_half_bound(vertical.x as int, vvx as int, 8388608);
            lemma_half_bound(vertical.y as int, vvy as int, 8388608);
            lemma_half_bound(vertical.z as int, vvz as int, 8388608);
        }
        let lower_left_corner = Vec3::new(
            position.x - (hx as i64) - (vvx as i64) - wfd.x,
            position.y - (hy as i64) - (vvy as i64) - wfd.y,
            position.z - (hz as i64) - (vvz as i64) - wfd.z,
        );
        let lr = div_floor(aperture as i128, 2);
        proof {
            lemma_div_floor_is_spec_div(aperture as int, 2, lr as int);
            lemma_half_bound(aperture as int, lr as int, 2 * SCALE as int);
        }
        Camera {
            origin: *position,
            lower_left_corner,
            horizontal,
            vertical,
            u,
            v,
            lens_radius: lr as i64,
            time0,
            time1,
        }
    }

    /// The ray this camera casts toward the viewport point `(s, t)`, for a
    /// given lens sample and time: exactly `spec_get_ray`. The lens offset is
    /// the sample scaled by the lens radius, so each of its coordinates stays
    /// within one sub-unit of the lens radius.
    pub fn get_ray_with(&self, s: i64, t: i64, lens_sample: Vec3, time: i64) -> (r: Ray)
        requires
            camera_wf(*self),
            0 <= s <= SCALE,
            0 <= t <= SCALE,
            vec_in_bounds(lens_sample, SCALE as int),
            self.time0 <= time <= self.time1,
        ensures
            r == spec_get_ray(*self, s, t, lens_sample, time),
            r.time == time,
            ray_wf(r),
    {
        let rd = lens_sample.scale_fixed(self.lens_radius);
        proof {
            lemma_rd_bound(lens_sample.x as int, self.lens_radius as int);
            lemma_rd_bound(lens_sample.y as int, self.lens_radius as int);
            lemma_rd_bound(lens_sample.z as int, self.lens_radius as int);
        }
        let ox = scaled_prod(self.u.x, rd.x, Ghost(262144)) + scaled_prod(self.v.x, rd.y,
            Ghost(262144));
        let oy = scaled_prod(self.u.y, rd.x, Ghost(262144)) + scaled_prod(self.v.y, rd.y,
            Ghost(262144));
        let oz = scaled_prod(self.u.z, rd.x, Ghost(262144)) + scaled_prod(self.v.z, rd.y,
            Ghost(262144));
        let orig = Vec3::new(self.origin.x + ox, self.origin.y + oy, self.origin.z + oz);
        let shx = scaled_prod(self.horizontal.x, s, Ghost(8388608));
        let shy = scaled_prod(self.horizontal.y, s, Ghost(8388608));
        let shz = scaled_prod(self.horizontal.z, s, Ghost(8388608));
        let tvx = scaled_prod(self.vertical.x, t, Ghost(8388608));
        let tvy = scaled_prod(self.vertical.y, t, Ghost(8388608));
        let tvz = scaled_prod(self.vertical.z, t, Ghost(8388608));
        let dir = Vec3::new(
            self.lower_left_corner.x + shx + tvx - orig.x,
            self.lower_left_corner.y + shy + tvy - orig.y,
            self.lower_left_corner.z + shz + tvz - orig.z,
        );
        Ray::new(orig, dir, time)
    }

    /// Used to get the ray corresponding to a pixel sample: exactly the ray
    /// `spec_get_ray` casts for some lens sample strictly inside the unit
    /// sphere and a time drawn from `[time0, time1)`.
    pub fn get_ray(&self, s: i64, t: i64) -> (r: Ray)
        requires
            camera_wf(*self),
            0 <= s <= SCALE,
            0 <= t <= SCALE,
        ensures
            ray_wf(r),
            self.time0 <= r.time < self.time1,
            exists|sample: Vec3|
                spec_dot(sample, sample) < SCALE * SCALE && !(sample.x == 0 && sample.y == 0
                    && sample.z == 0) && r == #[trigger] spec_get_ray(*self, s, t, sample, r.time),
    {
        let sample = random_in_unit_sphere();
        let time = random_double(self.time0, self.time1);
        let r = self.get_ray_with(s, t, sample, time);
        proof {
            assert(spec_dot(sample, sample) < SCALE * SCALE && !(sample.x == 0 && sample.y == 0
                && sample.z == 0) && r == spec_get_ray(*self, s, t, sample, r.time));
        }
        r
    }
}

/// A lens-disk coordinate stays within the lens radius.
proof fn lemma_rd_bound(c: int, lr: int)
    requires
        -SCALE <= c <= SCALE,
        0 <= lr <= SCALE,
    ensures
        -SCALE - 1 <= (c * lr) / (SCALE as int) <= SCALE,
{
    crate::sphere::lemma_floor_div_range(c * lr, SCALE as int);
    let q = (c * lr) / (SCALE as int);
    assert(-SCALE - 1 <= q <= SCALE) by (nonlinear_arith)
        requires
            -SCALE <= c <= SCALE,
            0 <= lr <= SCALE,
            (SCALE as int) * q <= c * lr < (SCALE as int) * (q + 1),
            SCALE == 65536,
    ;
}

/// One component of the camera basis scaled by a bounded span.
fn camera_axis_scale(a: Vec3, k: i64, Ghost(kb): Ghost<int>) -> (r: Vec3)
    requires
        vec_in_bounds(a, 262144),
        0 <= kb <= 2097152,
        -kb <= k <= kb,
    ensures
        r.x == (a.x * k) / (SCALE as int),
        r.y == (a.y * k) / (SCALE as int),
        r.z == (a.z * k) / (SCALE as int),
        vec_in_bounds(r, 8388608),
{
    proof {
        lemma_mul_bound2(a.x as int, k as int, 262144, 2097152);
        lemma_mul_bound2(a.y as int, k as int, 262144, 2097152);
        lemma_mul_bound2(a.z as int, k as int, 262144, 2097152);
    }
    let qx = div_floor((a.x as i128) * (k as i128), SCALE as i128);
    let qy = div_floor((a.y as i128) * (k as i128), SCALE as i128);
    let qz = div_floor((a.z as i128) * (k as i128), SCALE as i128);
    proof {
        lemma_div_floor_is_spec_div(a.x as int * k, SCALE as int, qx as int);
        lemma_div_floor_is_spec_div(a.y as int * k, SCALE as int, qy as int);
        lemma_div_floor_is_spec_div(a.z as int * k, SCALE as int, qz as int);
        lemma_scaled_quot_bound(a.x as int * k, qx as int, 8388608);
        lemma_scaled_quot_bound(a.y as int * k, qy as int, 8388608);
        lemma_scaled_quot_bound(a.z as int * k, qz as int, 8388608);
    }
    Vec3::new(qx as i64, qy as i64, qz as i64)
}

/// A product of a basis component and a fixed-point coordinate, scaled back
/// down.
fn scaled_prod(a: i64, b: i64, Ghost(ab): Ghost<int>) -> (r: i64)
    requires
        0 <= ab <= 8388608,
        -ab <= a <= ab,
        -SCALE - 1 <= b <= SCALE,
    ensures
        r == (a * b) / (SCALE as int),
        -ab - 130 <= r <= ab + 130,
{
    proof {
        lemma_mul_bound2(a as int, b as int, ab, SCALE + 1);
        assert(-8388608 * (SCALE + 1) <= a * b <= 8388608 * (SCALE + 1)) by (nonlinear_arith)
            requires
                0 <= ab <= 8388608,
                -(ab * (SCALE + 1)) <= a * b <= ab * (SCALE + 1),
                SCALE == 65536,
        ;
    }
    let q = div_floor((a as i128) * (b as i128), SCALE as i128);
    proof {
        lemma_div_floor_is_spec_div(a as int * b, SCALE as int, q as int);
        assert(-ab - 130 <= q <= ab + 130) by (nonlinear_arith)
            requires
                0 <= ab <= 8388608,
                (SCALE as int) * q <= a * b < (SCALE as int) * (q + 1),
                -(ab * (SCALE + 1)) <= a * b <= ab * (SCALE + 1),
                SCALE == 65536,
        ;
    }
    q as i64
}

} // verus!
