//! A ray: a reference starting point, a direction, and a time for motion
//! blur. Coordinates are integer sub-units and the ray parameter is carried
//! in `1 / SCALE` steps.

use crate::color::{color_wf, Color};
use crate::hittable::{best_hit, hit_record_wf};
use crate::hittable_list::{prims_time_ok, prims_wf, HittableList};
use crate::num::{div_floor, SCALE, T_BOUND, T_EPS};
use crate::vector::{
    lemma_div_floor_is_spec_div, lemma_mul_bound2, lemma_spec_unit_bounds, spec_unit,
    vec_in_bounds, Vec3,
};
use vstd::prelude::*;

verus! {

/// Defines an alias for Vec3, used for points in three dimensional space.
pub type Point3 = Vec3;

/// Bound on the coordinates of ray origins and directions.
pub const RAY_BOUND: i64 = 67108864;

/// Defines a Ray using a reference starting point and a direction vector.
#[derive(Clone, Copy, PartialEq, Eq, Structural, Debug)]
pub struct Ray {
    pub orig: Point3,
    pub dir: Vec3,
    pub time: i64,
}

/// Origin and direction are within the coordinate range the intersection
/// routines accept, and the time is within the parameter range.
pub open spec fn ray_wf(ray: Ray) -> bool {
    &&& vec_in_bounds(ray.orig, RAY_BOUND as int)
    &&& vec_in_bounds(ray.dir, RAY_BOUND as int)
    &&& -T_BOUND <= ray.time <= T_BOUND
}

/// The point along the ray at parameter `t` (in `1 / SCALE` units), each
/// component rounded toward negative infinity.
pub open spec fn spec_at(ray: Ray, t: int) -> Vec3 {
    Vec3 {
        x: (ray.orig.x + (ray.dir.x * t) / (SCALE as int)) as i64,
        y: (ray.orig.y + (ray.dir.y * t) / (SCALE as int)) as i64,
        z: (ray.orig.z + (ray.dir.z * t) / (SCALE as int)) as i64,
    }
}

impl Ray {
    /// This function creates a new Ray.
    pub fn new(orig: Point3, dir: Vec3, time: i64) -> (r: Self)
        ensures
            r == (Ray { orig, dir, time }),
    {
        Self { orig, dir, time }
    }

    /// Returns the origin of the given Ray.
    pub fn origin(&self) -> (r: Point3)
        ensures
            r == self.orig,
    {
        self.orig
    }

    /// Returns the direction of the given Ray.
    pub fn direction(&self) -> (r: Vec3)
        ensures
            r == self.dir,
    {
        self.dir
    }

    /// Returns the time at which the Ray samples the scene.
    pub fn time(&self) -> (r: i64)
        ensures
            r == self.time,
    {
        self.time
    }

    /// Returns the point along the Ray at parameter `t`.
    pub fn at(&self, t: i64) -> (r: Point3)
        requires
            ray_wf(*self),
            -T_BOUND <= t <= T_BOUND,
        ensures
            r == spec_at(*self, t as int),
    {
        self.orig.plus(self.dir.scale_fixed(t))
    }
}


/// The sky-blue horizon color of the background gradient.
pub open spec fn spec_sky_blue() -> Vec3 {
    Vec3 { x: 32768, y: 45875, z: 65536 }
}

/// The background gradient for a missed ray: white and sky blue mixed by the
/// height of the unit direction, each channel rounded toward negative
/// infinity.
pub open spec fn spec_background(dir: Vec3) -> Vec3 {
    let u = spec_unit(dir);
    let t = (u.y + SCALE) / 2;
    Vec3 {
        x: (((SCALE - t) * SCALE + t * spec_sky_blue().x) / (SCALE as int)) as i64,
        y: (((SCALE - t) * SCALE + t * spec_sky_blue().y) / (SCALE as int)) as i64,
        z: (((SCALE - t) * SCALE + t * spec_sky_blue().z) / (SCALE as int)) as i64,
    }
}

/// A mix of two channel values stays between them.
pub proof fn lemma_mix_bounds(t: int, a: int, b: int)
    requires
        0 <= t <= SCALE,
        0 <= b <= a <= SCALE,
    ensures
        b <= ((SCALE - t) * a + t * b) / (SCALE as int) <= a,
{
    crate::sphere::lemma_floor_div_range((SCALE - t) * a + t * b, SCALE as int);
    let q = ((SCALE - t) * a + t * b) / (SCALE as int);
    assert(b <= q <= a) by (nonlinear_arith)
        requires
            0 <= t <= SCALE,
            0 <= b <= a <= SCALE,
            (SCALE as int) * q <= (SCALE - t) * a + t * b < (SCALE as int) * (q + 1),
            SCALE == 65536,
    ;
}

/// The background of every missed ray lies componentwise between pure white
/// and sky blue, and depends only on the height of the unit direction.
pub proof fn lemma_background_between(dir: Vec3)
    requires
        vec_in_bounds(dir, crate::vector::VEC_BOUND as int),
        !(dir.x == 0 && dir.y == 0 && dir.z == 0),
    ensures
        spec_sky_blue().x <= spec_background(dir).x <= SCALE,
        spec_sky_blue().y <= spec_background(dir).y <= SCALE,
        spec_background(dir).z == SCALE,
        color_wf(spec_background(dir)),
{
    lemma_spec_unit_bounds(dir);
    let u = spec_unit(dir);
    let t = (u.y + SCALE) / 2;
    assert(0 <= t <= SCALE);
    lemma_mix_bounds(t, SCALE as int, spec_sky_blue().x as int);
    lemma_mix_bounds(t, SCALE as int, spec_sky_blue().y as int);
    lemma_mix_bounds(t, SCALE as int, spec_sky_blue().z as int);
    assert(((SCALE - t) * SCALE + t * SCALE) == SCALE * SCALE) by (nonlinear_arith);
    assert((SCALE * SCALE) / (SCALE as int) == SCALE as int) by (nonlinear_arith)
        requires
            SCALE == 65536,
    ;
}

/// One channel of the background mix, in executable arithmetic.
fn mix_channel(t: i64, b: i64) -> (r: i64)
    requires
        0 <= t <= SCALE,
        0 <= b <= SCALE,
    ensures
        r == ((SCALE - t) * SCALE + t * b) / (SCALE as int),
        0 <= r <= SCALE,
{
    proof {
        lemma_mul_bound2((SCALE - t) as int, SCALE as int, SCALE as int, SCALE as int);
        lemma_mul_bound2(t as int, b as int, SCALE as int, SCALE as int);
    }
    let num = ((SCALE - t) as i128) * (SCALE as i128) + (t as i128) * (b as i128);
    let q = div_floor(num, SCALE as i128);
    proof {
        lemma_div_floor_is_spec_div((SCALE - t) as int * SCALE + t * b, SCALE as int, q as int);
        lemma_mix_bounds(t as int, SCALE as int, b as int);
    }
    q as i64
}

impl Ray {
    /// Returns the expected color for this ray in the given world: black at
    /// the depth limit or on absorption, the attenuated color of the bounce
    /// on a hit, and the background gradient on a miss.
    pub fn color(&self, world: &HittableList, depth: i32) -> (r: Color)
        requires
            ray_wf(*self),
            prims_wf(world.objects@),
            prims_time_ok(world.objects@, self.time as int),
        ensures
            color_wf(r),
            depth <= 0 ==> r == (Vec3 { x: 0, y: 0, z: 0 }),
            (depth > 0 && best_hit(world.objects@, *self, T_EPS as int, T_BOUND as int) is None
                && !(self.dir.x == 0 && self.dir.y == 0 && self.dir.z == 0)) ==> r
                == spec_background(self.dir),
        decreases depth,
    {
        if depth <= 0 {
            return Color::new(0, 0, 0);
        }
        match world.hit(self, T_EPS, T_BOUND) {
            Some(rec) => {
                proof {
                    crate::hittable::lemma_best_hit_char(world.objects@, *self, T_EPS as int,
                        T_BOUND as int);
                    let wi = choose|i: int|
                        0 <= i < world.objects@.len() && #[trigger] crate::hittable::spec_prim_hit(
                            world.objects@[i], *self, T_EPS as int, T_BOUND as int) == Some(rec);
                    crate::hittable::lemma_prim_hit_wf(world.objects@[wi], *self, T_EPS as int,
                        T_BOUND as int);
                }
                match rec.material.scatter(self, &rec) {
                    Some((attenuation, scattered)) => {
                        let bounced = scattered.color(world, depth - 1);
                        let r = attenuation.mul_fixed(bounced);
                        proof {
                            lemma_color_mul_wf(attenuation, bounced);
                        }
                        r
                    },
                    None => Color::new(0, 0, 0),
                }
            },
            None => {
                if self.dir.x() == 0 && self.dir.y() == 0 && self.dir.z() == 0 {
                    return Color::new(0, 0, 0);
                }
                let unit_dir = Vec3::unit_vector(self.direction());
                let t = div_floor((unit_dir.y + SCALE) as i128, 2);
                proof {
                    lemma_div_floor_is_spec_div(unit_dir.y + SCALE as int, 2, t as int);
                }
                let t64 = t as i64;
                let x = mix_channel(t64, 32768);
                let y = mix_channel(t64, 45875);
                let z = mix_channel(t64, SCALE);
                proof {
                    lemma_background_between(self.dir);
                }
                Vec3::new(x, y, z)
            },
        }
    }
}

/// The componentwise fixed-point product of two colors is a color.
proof fn lemma_color_mul_wf(a: Vec3, b: Vec3)
    requires
        color_wf(a),
        color_wf(b),
    ensures
        color_wf(
            Vec3 {
                x: ((a.x * b.x) / (SCALE as int)) as i64,
                y: ((a.y * b.y) / (SCALE as int)) as i64,
                z: ((a.z * b.z) / (SCALE as int)) as i64,
            },
        ),
        0 <= (a.x * b.x) / (SCALE as int) <= SCALE,
        0 <= (a.y * b.y) / (SCALE as int) <= SCALE,
        0 <= (a.z * b.z) / (SCALE as int) <= SCALE,
{
    lemma_color_mul_channel(a.x as int, b.x as int);
    lemma_color_mul_channel(a.y as int, b.y as int);
    lemma_color_mul_channel(a.z as int, b.z as int);
}

/// One channel of a color product stays within `[0, SCALE]`.
proof fn lemma_color_mul_channel(a: int, b: int)
    requires
        0 <= a <= SCALE,
        0 <= b <= SCALE,
    ensures
        0 <= (a * b) / (SCALE as int) <= SCALE,
{
    crate::sphere::lemma_floor_div_range(a * b, SCALE as int);
    let q = (a * b) / (SCALE as int);
    assert(0 <= q <= SCALE) by (nonlinear_arith)
        requires
            0 <= a <= SCALE,
            0 <= b <= SCALE,
            (SCALE as int) * q <= a * b < (SCALE as int) * (q + 1),
            SCALE == 65536,
    ;
}


} // verus!
