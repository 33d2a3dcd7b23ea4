//! The material models: diffuse (Lambertian), specular with fuzz (Metal) and
//! refractive (Dielectric). A primitive carries its material by value; the
//! scattering operations live here as well.

use crate::color::{color_wf, Color};
use crate::definitions::{near_zero, random_double, random_in_unit_sphere, random_unit_vector,
    reflect, reflectance, refract, spec_reflect, spec_refract};
use crate::hittable::{hit_record_wf, HitRecord};
use crate::num::{div_floor, isqrt, spec_isqrt, SCALE};
use crate::ray::{ray_wf, Ray, RAY_BOUND};
use crate::vector::{lemma_div_floor_is_spec_div, lemma_dot_bound, spec_dot, spec_unit,
    vec_in_bounds, Vec3};
use vstd::prelude::*;

verus! {

/// A diffuse material: scattered rays leave in a cosine-weighted random
/// direction and are attenuated by the albedo.
#[derive(Clone, Copy, PartialEq, Eq, Structural, Debug)]
pub struct Lambertian {
    pub albedo: Color,
}

/// A specular material: rays reflect about the normal, perturbed by `fuzz`.
#[derive(Clone, Copy, PartialEq, Eq, Structural, Debug)]
pub struct Metal {
    pub albedo: Color,
    pub fuzz: i64,
}

/// A refractive material, described by its index of refraction in fixed
/// point (`SCALE` stands for `1.0`).
#[derive(Clone, Copy, PartialEq, Eq, Structural, Debug)]
pub struct Dielectric {
    pub refractive_index: i64,
}

/// The closed set of material models a primitive can carry.
#[derive(Clone, Copy, PartialEq, Eq, Structural, Debug)]
pub enum Material {
    Lambertian(Lambertian),
    Metal(Metal),
    Dielectric(Dielectric),
}

/// Albedos are colors, fuzz lies in `[0, 1]`, and the refractive index is
/// positive.
pub open spec fn material_wf(m: Material) -> bool {
    match m {
        Material::Lambertian(l) => color_wf(l.albedo),
        Material::Metal(mt) => color_wf(mt.albedo) && 0 <= mt.fuzz <= SCALE,
        Material::Dielectric(d) => SCALE <= d.refractive_index <= 16 * SCALE,
    }
}

impl Lambertian {
    /// A diffuse material with the given albedo.
    pub fn new(albedo: Color) -> (r: Self)
        requires
            color_wf(albedo),
        ensures
            r.albedo == albedo,
            material_wf(Material::Lambertian(r)),
    {
        Self { albedo }
    }
}

impl Metal {
    /// A specular material with the given albedo and fuzz.
    pub fn new(albedo: Color, fuzz: i64) -> (r: Self)
        requires
            color_wf(albedo),
            0 <= fuzz <= SCALE,
        ensures
            r.albedo == albedo,
            r.fuzz == fuzz,
            material_wf(Material::Metal(r)),
    {
        Self { albedo, fuzz }
    }
}

impl Dielectric {
    /// A refractive material with the given index of refraction.
    pub fn new(refractive_index: i64) -> (r: Self)
        requires
            SCALE <= refractive_index <= 16 * SCALE,
        ensures
            r.refractive_index == refractive_index,
            material_wf(Material::Dielectric(r)),
    {
        Self { refractive_index }
    }
}

/// The scatter direction of a diffuse bounce: the surface normal plus a unit
/// sample, or the normal itself when that sum degenerates to zero.
pub open spec fn spec_lambertian_dir(normal: Vec3, sample: Vec3) -> Vec3 {
    let d = Vec3 {
        x: (normal.x + sample.x) as i64,
        y: (normal.y + sample.y) as i64,
        z: (normal.z + sample.z) as i64,
    };
    if d.x == 0 && d.y == 0 && d.z == 0 {
        normal
    } else {
        d
    }
}

impl Lambertian {
    /// The diffuse bounce for a given unit sample: the attenuation is the
    /// albedo and the scattered ray leaves the hit point.
    pub fn scatter_with(&self, r_in: &Ray, rec: &HitRecord, sample: Vec3) -> (r: (Color, Ray))
        requires
            hit_record_wf(*rec),
            vec_in_bounds(sample, SCALE as int),
            -crate::num::T_BOUND <= r_in.time <= crate::num::T_BOUND,
        ensures
            r.0 == self.albedo,
            r.1.orig == rec.point,
            r.1.time == r_in.time,
            r.1.dir == spec_lambertian_dir(rec.normal, sample),
            vec_in_bounds(r.1.dir, 2 * SCALE as int),
    {
        let mut scatter_direction = rec.normal.plus(sample);
        if near_zero(scatter_direction) {
            scatter_direction = rec.normal;
        }
        (self.albedo, Ray::new(rec.point, scatter_direction, r_in.time()))
    }

    /// Scatters with a freshly drawn unit sample: the result is the diffuse
    /// bounce for some unit-scaled sample.
    pub fn scatter(&self, r_in: &Ray, rec: &HitRecord) -> (r: Option<(Color, Ray)>)
        requires
            hit_record_wf(*rec),
            -crate::num::T_BOUND <= r_in.time <= crate::num::T_BOUND,
        ensures
            r matches Some(p) && p.0 == self.albedo && p.1.orig == rec.point && p.1.time
                == r_in.time && vec_in_bounds(p.1.dir, 2 * SCALE as int),
            exists|sample: Vec3|
                vec_in_bounds(sample, SCALE as int) && SCALE * SCALE - 6 * SCALE <= spec_dot(
                    sample, sample) <= SCALE * SCALE + 15 * SCALE && r == Some(
                    (self.albedo, Ray { orig: rec.point, dir: #[trigger] spec_lambertian_dir(
                        rec.normal, sample), time: r_in.time }),
                ),
    {
        let sample = random_unit_vector();
        let p = self.scatter_with(r_in, rec, sample);
        proof {
            assert(vec_in_bounds(sample, SCALE as int) && SCALE * SCALE - 6 * SCALE <= spec_dot(
                sample, sample) <= SCALE * SCALE + 15 * SCALE && Some(p) == Some(
                (self.albedo, Ray { orig: rec.point, dir: spec_lambertian_dir(rec.normal, sample),
                    time: r_in.time }),
            ));
        }
        Some(p)
    }
}

/// The scatter decision of a specular bounce for a given in-sphere sample:
/// the incident direction is reflected about the normal and perturbed by
/// `fuzz` of the sample; the ray is absorbed unless the result still points
/// away from the surface.
pub open spec fn spec_metal_scatter(m: Metal, r_in: Ray, rec: HitRecord, sample: Vec3) -> Option<
    (Color, Ray),
> {
    let reflected = spec_reflect(spec_unit(r_in.dir), rec.normal);
    let dir = Vec3 {
        x: (reflected.x + (sample.x * m.fuzz) / (SCALE as int)) as i64,
        y: (reflected.y + (sample.y * m.fuzz) / (SCALE as int)) as i64,
        z: (reflected.z + (sample.z * m.fuzz) / (SCALE as int)) as i64,
    };
    if spec_dot(dir, rec.normal) > 0 {
        Some((m.albedo, Ray { orig: rec.point, dir, time: r_in.time }))
    } else {
        None
    }
}

impl Metal {
    /// The specular bounce for a given in-sphere sample.
    pub fn scatter_with(&self, r_in: &Ray, rec: &HitRecord, sample: Vec3) -> (r: Option<(Color, Ray)>)
        requires
            material_wf(Material::Metal(*self)),
            hit_record_wf(*rec),
            vec_in_bounds(sample, SCALE as int),
            ray_wf(*r_in),
            !(r_in.dir.x == 0 && r_in.dir.y == 0 && r_in.dir.z == 0),
        ensures
            r == spec_metal_scatter(*self, *r_in, *rec, sample),
            r matches Some(p) ==> p.0 == self.albedo && p.1.orig == rec.point && p.1.time
                == r_in.time && vec_in_bounds(p.1.dir, 26279937),
    {
        let unit = Vec3::unit_vector(r_in.direction());
        let reflected = reflect(&unit, &rec.normal);
        let perturb = sample.scale_fixed(self.fuzz);
        proof {
            lemma_fuzz_comp_bound(sample.x as int, self.fuzz as int);
            lemma_fuzz_comp_bound(sample.y as int, self.fuzz as int);
            lemma_fuzz_comp_bound(sample.z as int, self.fuzz as int);
        }
        let dir = reflected.plus(perturb);
        if dir.dot(rec.normal) > 0 {
            Some((self.albedo, Ray::new(rec.point, dir, r_in.time())))
        } else {
            None
        }
    }

    /// Scatters with a freshly drawn in-sphere sample: the result is exactly
    /// the specular bounce for some nonzero sample strictly inside the unit
    /// sphere — in particular, with zero fuzz the sample cannot tip the sign
    /// test, and the ray is absorbed exactly when the unperturbed reflection
    /// points into the surface.
    pub fn scatter(&self, r_in: &Ray, rec: &HitRecord) -> (r: Option<(Color, Ray)>)
        requires
            material_wf(Material::Metal(*self)),
            hit_record_wf(*rec),
            ray_wf(*r_in),
            !(r_in.dir.x == 0 && r_in.dir.y == 0 && r_in.dir.z == 0),
        ensures
            r matches Some(p) ==> p.0 == self.albedo && p.1.orig == rec.point && p.1.time
                == r_in.time && vec_in_bounds(p.1.dir, 26279937),
            exists|sample: Vec3|
                spec_dot(sample, sample) < SCALE * SCALE && !(sample.x == 0 && sample.y == 0
                    && sample.z == 0) && r == #[trigger] spec_metal_scatter(*self, *r_in, *rec,
                    sample),
    {
        let sample = random_in_unit_sphere();
        let r = self.scatter_with(r_in, rec, sample);
        proof {
            assert(spec_dot(sample, sample) < SCALE * SCALE && !(sample.x == 0 && sample.y == 0
                && sample.z == 0) && r == spec_metal_scatter(*self, *r_in, *rec, sample));
        }
        r
    }
}

/// The refraction ratio a dielectric applies: the reciprocal of the index
/// when the outside is struck, the index itself when leaving.
pub open spec fn spec_refraction_ratio(d: Dielectric, front_face: bool) -> int {
    if front_face {
        (SCALE * SCALE) / (d.refractive_index as int)
    } else {
        d.refractive_index as int
    }
}

/// The direction a dielectric scatters into, for a given uniform draw `u`:
/// reflection on total internal reflection or when Schlick's approximation
/// exceeds the draw, refraction otherwise.
pub open spec fn spec_dielectric_dir(d: Dielectric, r_in: Ray, rec: HitRecord, u: int) -> Vec3 {
    let ratio = spec_refraction_ratio(d, rec.front_face);
    let unit = spec_unit(r_in.dir);
    let cos_raw = (-spec_dot(unit, rec.normal)) / (SCALE as int);
    let cos = if cos_raw <= SCALE { cos_raw } else { SCALE as int };
    let s2 = SCALE * SCALE - cos * cos;
    let sin = spec_isqrt(if s2 < 0 { 0 } else { s2 });
    let cannot_refract = (ratio * sin) / (SCALE as int) > SCALE
        || crate::definitions::spec_reflectance(cos, d.refractive_index as int) > u;
    if cannot_refract {
        spec_reflect(unit, rec.normal)
    } else {
        spec_refract(unit, rec.normal, ratio)
    }
}

impl Dielectric {
    /// The refractive bounce for a given uniform draw: the attenuation is
    /// exactly white and the scattered ray leaves the hit point.
    pub fn scatter_with(&self, r_in: &Ray, rec: &HitRecord, u: i64) -> (r: (Color, Ray))
        requires
            material_wf(Material::Dielectric(*self)),
            hit_record_wf(*rec),
            ray_wf(*r_in),
            !(r_in.dir.x == 0 && r_in.dir.y == 0 && r_in.dir.z == 0),
        ensures
            r.0 == (Vec3 { x: SCALE as i64, y: SCALE as i64, z: SCALE as i64 }),
            r.1.orig == rec.point,
            r.1.time == r_in.time,
            r.1.dir == spec_dielectric_dir(*self, *r_in, *rec, u as int),
            vec_in_bounds(r.1.dir, 26214400),
    {
        let refraction_ratio: i64 = if rec.front_face {
            let q = div_floor((SCALE as i128) * (SCALE as i128), self.refractive_index as i128);
            proof {
                lemma_div_floor_is_spec_div(SCALE * SCALE, self.refractive_index as int, q as int);
                assert(1 <= q <= SCALE) by (nonlinear_arith)
                    requires
                        (self.refractive_index as int) * q <= SCALE * SCALE
                            < (self.refractive_index as int) * (q + 1),
                        SCALE <= self.refractive_index <= 16 * SCALE,
                        SCALE == 65536,
                ;
            }
            q as i64
        } else {
            self.refractive_index
        };
        let unit_direction = Vec3::unit_vector(r_in.direction());
        proof {
            lemma_dot_bound(unit_direction, rec.normal, SCALE as int, SCALE as int);
        }
        let d = unit_direction.dot(rec.normal);
        let c0 = div_floor(-d, SCALE as i128);
        proof {
            lemma_div_floor_is_spec_div(-d as int, SCALE as int, c0 as int);
            assert(-3 * SCALE - 1 <= c0 <= 3 * SCALE) by (nonlinear_arith)
                requires
                    (SCALE as int) * c0 <= -d < (SCALE as int) * (c0 + 1),
                    -3 * (SCALE as int) * SCALE <= d <= 3 * (SCALE as int) * SCALE,
                    SCALE == 65536,
            ;
        }
        let cos_theta: i64 = if (c0 as i64) <= SCALE {
            c0 as i64
        } else {
            SCALE
        };
        proof {
            assert(0 <= (cos_theta as int) * (cos_theta as int) <= 38655098881) by (nonlinear_arith)
                requires
                    -3 * SCALE - 1 <= cos_theta <= SCALE,
                    SCALE == 65536,
            ;
        }
        let s2 = (SCALE as i128) * (SCALE as i128) - (cos_theta as i128) * (cos_theta as i128);
        let s2c: i128 = if s2 < 0 {
            0
        } else {
            s2
        };
        let sin_theta = isqrt(s2c as u128);
        proof {
            assert(sin_theta <= SCALE) by (nonlinear_arith)
                requires
                    sin_theta * sin_theta <= s2c,
                    s2c <= (SCALE as int) * SCALE,
                    SCALE == 65536,
            ;
        }
        proof {
            crate::vector::lemma_mul_bound2(refraction_ratio as int, sin_theta as int,
                16 * SCALE as int, SCALE as int);
        }
        let rs = div_floor((refraction_ratio as i128) * (sin_theta as i128), SCALE as i128);
        proof {
            lemma_div_floor_is_spec_div(refraction_ratio as int * (sin_theta as int), SCALE as int,
                rs as int);
        }
        let cannot_refract = rs > SCALE as i128 || reflectance(cos_theta, self.refractive_index)
            > u;
        let direction = if cannot_refract {
            reflect(&unit_direction, &rec.normal)
        } else {
            refract(&unit_direction, &rec.normal, refraction_ratio)
        };
        (
            Color::new(SCALE, SCALE, SCALE),
            Ray::new(rec.point, direction, r_in.time()),
        )
    }
}

/// A fuzz perturbation of an in-sphere sample stays within one unit length.
proof fn lemma_fuzz_comp_bound(c: int, fuzz: int)
    requires
        -SCALE <= c <= SCALE,
        0 <= fuzz <= SCALE,
    ensures
        -SCALE - 1 <= (c * fuzz) / (SCALE as int) <= SCALE,
{
    crate::sphere::lemma_floor_div_range(c * fuzz, SCALE as int);
    let q = (c * fuzz) / (SCALE as int);
    assert(-SCALE - 1 <= q <= SCALE) by (nonlinear_arith)
        requires
            (SCALE as int) * q <= c * fuzz < (SCALE as int) * (q + 1),
            -SCALE <= c <= SCALE,
            0 <= fuzz <= SCALE,
            SCALE == 65536,
    ;
}

impl Material {
    /// Asks the material to scatter an incident ray at a hit: the attenuation
    /// is always a color; diffuse and refractive materials always scatter,
    /// and the scattered ray leaves the hit point at the incident ray's time.
    pub fn scatter(&self, r_in: &Ray, rec: &HitRecord) -> (r: Option<(Color, Ray)>)
        requires
            material_wf(*self),
            hit_record_wf(*rec),
            ray_wf(*r_in),
            !(r_in.dir.x == 0 && r_in.dir.y == 0 && r_in.dir.z == 0),
        ensures
            r matches Some(p) ==> {
                &&& color_wf(p.0)
                &&& p.1.orig == rec.point
                &&& p.1.time == r_in.time
                &&& ray_wf(p.1)
                &&& (self matches Material::Lambertian(l) ==> p.0 == l.albedo)
                &&& (self matches Material::Metal(m) ==> p.0 == m.albedo)
                &&& (self matches Material::Dielectric(d) ==> p.0 == (Vec3 {
                    x: SCALE as i64,
                    y: SCALE as i64,
                    z: SCALE as i64,
                }))
            },
            (self matches Material::Lambertian(l) || self matches Material::Dielectric(d))
                ==> r.is_some(),
            self matches Material::Lambertian(l) ==> exists|sample: Vec3|
                vec_in_bounds(sample, SCALE as int) && SCALE * SCALE - 6 * SCALE <= spec_dot(
                    sample, sample) <= SCALE * SCALE + 15 * SCALE && r == Some(
                    (l.albedo, Ray { orig: rec.point, dir: #[trigger] spec_lambertian_dir(
                        rec.normal, sample), time: r_in.time }),
                ),
            self matches Material::Metal(m) ==> exists|sample: Vec3|
                spec_dot(sample, sample) < SCALE * SCALE && !(sample.x == 0 && sample.y == 0
                    && sample.z == 0) && r == #[trigger] spec_metal_scatter(*m, *r_in, *rec,
                    sample),
            self matches Material::Dielectric(d) ==> exists|u: i64|
                0 <= u < SCALE && r == Some(
                    (Vec3 { x: SCALE as i64, y: SCALE as i64, z: SCALE as i64 }, Ray {
                        orig: rec.point,
                        dir: #[trigger] spec_dielectric_dir(*d, *r_in, *rec, u as int),
                        time: r_in.time,
                    }),
                ),
    {
        match self {
            Material::Lambertian(l) => l.scatter(r_in, rec),
            Material::Metal(m) => m.scatter(r_in, rec),
            Material::Dielectric(d) => {
                let u = random_double(0, SCALE);
                let p = d.scatter_with(r_in, rec, u);
                proof {
                    assert(0 <= u < SCALE && Some(p) == Some(
                        (Vec3 { x: SCALE as i64, y: SCALE as i64, z: SCALE as i64 }, Ray {
                            orig: rec.point,
                            dir: spec_dielectric_dir(*d, *r_in, *rec, u as int),
                            time: r_in.time,
                        }),
                    ));
                }
                Some(p)
            },
        }
    }
}

} // verus!
