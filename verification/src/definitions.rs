//! Shared helpers: random sampling, angle conversion, and the reflection and
//! refraction formulas in fixed point.

use crate::num::{div_floor, isqrt, spec_isqrt, SCALE, T_BOUND};
use crate::vector::{
    lemma_div_floor_is_spec_div, lemma_dot_bound, lemma_dot_self_nonneg, lemma_mul_bound2,
    spec_dot, vec_in_bounds, Vec3, VEC_BOUND,
};
use vstd::prelude::*;

verus! {

/// The circle constant scaled by `SCALE`.
pub const PI_FIXED: i64 = 205887;

/// Bound on the components `reflect` accepts.
pub const REFLECT_BOUND: i64 = 262144;

/// Provides logic for converting degrees (fixed point) to radians (fixed
/// point), rounded toward negative infinity.
pub fn degrees_to_radians(degrees: i64) -> (r: i64)
    requires
        -VEC_BOUND <= degrees <= VEC_BOUND,
    ensures
        r == (degrees * PI_FIXED) / (180 * SCALE as int),
{
    proof {
        lemma_mul_bound2(degrees as int, PI_FIXED as int, VEC_BOUND as int, PI_FIXED as int);
    }
    let q = div_floor((degrees as i128) * (PI_FIXED as i128), 180 * (SCALE as i128));
    proof {
        lemma_div_floor_is_spec_div(degrees as int * PI_FIXED, 180 * SCALE as int, q as int);
        assert(-VEC_BOUND <= q <= VEC_BOUND) by (nonlinear_arith)
            requires
                (180 * SCALE as int) * q <= degrees * PI_FIXED < (180 * SCALE as int) * (q + 1),
                -(VEC_BOUND as int) * PI_FIXED <= degrees * PI_FIXED <= (VEC_BOUND as int)
                    * PI_FIXED,
                SCALE == 65536,
                PI_FIXED == 205887,
                VEC_BOUND == 1125899906842624i64,
        ;
    }
    q as i64
}

/// Relies on `rand::Rng::gen_range` over the half-open integer range `0..n`:
/// the sample is uniformly distributed and strictly below `n`; the range is
/// nonempty, so the call does not panic.
#[verifier::external_body]
pub(crate) fn random_below(n: u64) -> (r: u64)
    requires
        n >= 1,
    ensures
        r < n,
{
    rand::Rng::gen_range(&mut rand::thread_rng(), 0..n)
}

/// Provides logic for generating uniformly distributed fixed-point numbers in
/// the half-open range `[min, max)`.
pub fn random_double(min: i64, max: i64) -> (r: i64)
    requires
        -T_BOUND <= min < max <= T_BOUND,
    ensures
        min <= r < max,
{
    let span = (max - min) as u64;
    let off = random_below(span);
    min + (off as i64)
}

/// Provides logic for generating a vector whose components are uniform in
/// `[min, max)`.
pub fn random_vec(min: i64, max: i64) -> (r: Vec3)
    requires
        -T_BOUND <= min < max <= T_BOUND,
    ensures
        min <= r.x < max && min <= r.y < max && min <= r.z < max,
{
    let x = random_double(min, max);
    let y = random_double(min, max);
    let z = random_double(min, max);
    Vec3::new(x, y, z)
}

/// Provides logic for generating random vectors strictly inside the unit
/// sphere and no shorter than a quarter unit, so that normalizing them keeps
/// near-unit length at fixed-point resolution. Sampling retries a bounded
/// number of times and then falls back to a fixed interior point.
pub fn random_in_unit_sphere() -> (r: Vec3)
    ensures
        268435456 <= spec_dot(r, r) < SCALE * SCALE,
        !(r.x == 0 && r.y == 0 && r.z == 0),
        vec_in_bounds(r, SCALE as int),
{
    let mut i: u64 = 0;
    while i < 64
        invariant
            true,
        decreases 64 - i,
    {
        let p = random_vec(-SCALE, SCALE);
        let d = p.dot(p);
        if 268435456 <= d && d < (SCALE as i128) * (SCALE as i128) {
            proof {
                lemma_in_sphere_comp_bounds(p);
                if p.x == 0 && p.y == 0 && p.z == 0 {
                    assert(spec_dot(p, p) == 0) by (nonlinear_arith)
                        requires
                            p.x == 0 && p.y == 0 && p.z == 0,
                    ;
                }
            }
            return p;
        }
        i = i + 1;
    }
    let fallback = Vec3::new(SCALE / 2, 0, 0);
    proof {
        assert(268435456 <= spec_dot(fallback, fallback) < SCALE * SCALE) by (nonlinear_arith)
            requires
                fallback.x == 32768 && fallback.y == 0 && fallback.z == 0,
                SCALE == 65536,
        ;
    }
    fallback
}

/// A vector strictly inside the unit sphere has every component within
/// `SCALE`.
proof fn lemma_in_sphere_comp_bounds(p: Vec3)
    requires
        spec_dot(p, p) < SCALE * SCALE,
    ensures
        vec_in_bounds(p, SCALE as int),
{
    assert(-SCALE <= p.x <= SCALE && -SCALE <= p.y <= SCALE && -SCALE <= p.z <= SCALE)
        by (nonlinear_arith)
        requires
            p.x * p.x + p.y * p.y + p.z * p.z < SCALE * SCALE,
            SCALE == 65536,
    ;
}

/// Provides logic for generating random vectors inside the closed hemisphere
/// around the given normal: the result never points away from it.
pub fn random_in_hemisphere(normal: &Vec3) -> (r: Vec3)
    requires
        vec_in_bounds(*normal, VEC_BOUND as int),
    ensures
        spec_dot(r, *normal) >= 0,
        spec_dot(r, r) < SCALE * SCALE,
        vec_in_bounds(r, SCALE as int),
        !(r.x == 0 && r.y == 0 && r.z == 0),
{
    let in_unit_sphere = random_in_unit_sphere();
    if in_unit_sphere.dot(*normal) > 0 {
        in_unit_sphere
    } else {
        let flipped = in_unit_sphere.neg();
        proof {
            assert(spec_dot(flipped, *normal) == -spec_dot(in_unit_sphere, *normal)
                && spec_dot(flipped, flipped) == spec_dot(in_unit_sphere, in_unit_sphere))
                by (nonlinear_arith)
                requires
                    flipped.x == -in_unit_sphere.x,
                    flipped.y == -in_unit_sphere.y,
                    flipped.z == -in_unit_sphere.z,
            ;
        }
        flipped
    }
}

/// Provides logic for generating a random vector of (approximately) unit
/// length `SCALE`: the normalization of some draw strictly inside the unit
/// sphere and no shorter than a quarter unit, so its squared length stays
/// within a narrow window around `SCALE * SCALE`.
pub fn random_unit_vector() -> (r: Vec3)
    ensures
        vec_in_bounds(r, SCALE as int),
        SCALE * SCALE - 6 * SCALE <= spec_dot(r, r) <= SCALE * SCALE + 15 * SCALE,
        exists|v: Vec3|
            268435456 <= spec_dot(v, v) < SCALE * SCALE && r == #[trigger] crate::vector::spec_unit(v),
{
    let p = random_in_unit_sphere();
    let r = Vec3::unit_vector(p);
    proof {
        crate::vector::lemma_spec_unit_norm_window(p);
        assert(268435456 <= spec_dot(p, p) < SCALE * SCALE && r == crate::vector::spec_unit(p));
    }
    r
}

/// Provides logic for detecting a vector that is zero in all dimensions: at
/// fixed-point resolution, a sub-unit threshold admits only zero itself.
pub fn near_zero(v: Vec3) -> (r: bool)
    ensures
        r == (v.x == 0 && v.y == 0 && v.z == 0),
{
    v.x == 0 && v.y == 0 && v.z == 0
}

/// The reflection of `v` about the normal `n`, in fixed point: each component
/// is `v - 2 * dot(v, n) * n / SCALE^2`, rounded toward negative infinity.
pub open spec fn spec_reflect(v: Vec3, n: Vec3) -> Vec3 {
    Vec3 {
        x: (v.x - (2 * spec_dot(v, n) * n.x) / (SCALE * SCALE)) as i64,
        y: (v.y - (2 * spec_dot(v, n) * n.y) / (SCALE * SCALE)) as i64,
        z: (v.z - (2 * spec_dot(v, n) * n.z) / (SCALE * SCALE)) as i64,
    }
}

/// Provides logic for reflection about a (unit-scaled) normal.
pub fn reflect(v: &Vec3, n: &Vec3) -> (r: Vec3)
    requires
        vec_in_bounds(*v, REFLECT_BOUND as int),
        vec_in_bounds(*n, REFLECT_BOUND as int),
    ensures
        r == spec_reflect(*v, *n),
        vec_in_bounds(r, 26214400),
{
    proof {
        lemma_dot_bound(*v, *n, REFLECT_BOUND as int, REFLECT_BOUND as int);
    }
    let d = v.dot(*n);
    proof {
        lemma_mul_bound2(2 * d, n.x as int, 412316860416, REFLECT_BOUND as int);
        lemma_mul_bound2(2 * d, n.y as int, 412316860416, REFLECT_BOUND as int);
        lemma_mul_bound2(2 * d, n.z as int, 412316860416, REFLECT_BOUND as int);
    }
    let qx = div_floor(2 * d * (n.x as i128), (SCALE as i128) * (SCALE as i128));
    let qy = div_floor(2 * d * (n.y as i128), (SCALE as i128) * (SCALE as i128));
    let qz = div_floor(2 * d * (n.z as i128), (SCALE as i128) * (SCALE as i128));
    proof {
        lemma_div_floor_is_spec_div(2 * d as int * n.x, SCALE * SCALE, qx as int);
        lemma_div_floor_is_spec_div(2 * d as int * n.y, SCALE * SCALE, qy as int);
        lemma_div_floor_is_spec_div(2 * d as int * n.z, SCALE * SCALE, qz as int);
        lemma_reflect_quot_bound(2 * d as int * n.x, qx as int);
        lemma_reflect_quot_bound(2 * d as int * n.y, qy as int);
        lemma_reflect_quot_bound(2 * d as int * n.z, qz as int);
    }
    Vec3::new(v.x - qx as i64, v.y - qy as i64, v.z - qz as i64)
}

/// The correction term of a reflection stays within bounds.
proof fn lemma_reflect_quot_bound(num: int, q: int)
    requires
        -108086391056891904 <= num <= 108086391056891904,
        (SCALE * SCALE) * q <= num < (SCALE * SCALE) * (q + 1),
    ensures
        -25165825 <= q <= 25165824,
{
    assert(-25165825 <= q <= 25165824) by (nonlinear_arith)
        requires
            -108086391056891904 <= num <= 108086391056891904,
            (SCALE * SCALE) * q <= num < (SCALE * SCALE) * (q + 1),
            SCALE == 65536,
    ;
}

/// The refraction of the unit vector `uv` about the normal `n` with the
/// refraction ratio `e` (fixed point), by Snell's law split into
/// perpendicular and parallel components, every division rounded toward
/// negative infinity.
pub open spec fn spec_refract(uv: Vec3, n: Vec3, e: int) -> Vec3 {
    let cos_raw = (-spec_dot(uv, n)) / (SCALE as int);
    let cos = if cos_raw <= SCALE { cos_raw } else { SCALE as int };
    let perp = Vec3 {
        x: ((e * (uv.x + (cos * n.x) / (SCALE as int))) / (SCALE as int)) as i64,
        y: ((e * (uv.y + (cos * n.y) / (SCALE as int))) / (SCALE as int)) as i64,
        z: ((e * (uv.z + (cos * n.z) / (SCALE as int))) / (SCALE as int)) as i64,
    };
    let s2 = SCALE * SCALE - spec_dot(perp, perp);
    let k = spec_isqrt(if s2 < 0 { -s2 } else { s2 });
    Vec3 {
        x: (perp.x - (k * n.x) / (SCALE as int)) as i64,
        y: (perp.y - (k * n.y) / (SCALE as int)) as i64,
        z: (perp.z - (k * n.z) / (SCALE as int)) as i64,
    }
}

/// One perpendicular component of a refraction.
fn refract_perp_comp(uvc: i64, nc: i64, cos: i64, e: i64) -> (r: i64)
    requires
        -SCALE <= uvc <= SCALE,
        -SCALE <= nc <= SCALE,
        -3 * SCALE - 1 <= cos <= SCALE,
        1 <= e <= 16 * SCALE,
    ensures
        r == (e * (uvc + (cos * nc) / (SCALE as int))) / (SCALE as int),
        -4250000 <= r <= 4250000,
{
    proof {
        lemma_mul_bound2(cos as int, nc as int, 3 * SCALE + 1, SCALE as int);
    }
    let ci = div_floor((cos as i128) * (nc as i128), SCALE as i128);
    proof {
        lemma_div_floor_is_spec_div(cos as int * nc, SCALE as int, ci as int);
        assert(-3 * SCALE - 2 <= ci <= 3 * SCALE + 1) by (nonlinear_arith)
            requires
                (SCALE as int) * ci <= cos * nc < (SCALE as int) * (ci + 1),
                -(3 * SCALE + 1) * SCALE <= cos * nc <= (3 * SCALE + 1) * (SCALE as int),
                SCALE == 65536,
        ;
        lemma_mul_bound2(e as int, uvc + ci, 16 * SCALE as int, 4 * SCALE + 2);
    }
    let inner = (uvc as i128) + (ci as i128);
    let q = div_floor((e as i128) * inner, SCALE as i128);
    proof {
        lemma_div_floor_is_spec_div(e as int * inner as int, SCALE as int, q as int);
        assert(-4250000 <= q <= 4250000) by (nonlinear_arith)
            requires
                (SCALE as int) * q <= (e as int) * inner < (SCALE as int) * (q + 1),
                -(16 * SCALE as int) * (4 * SCALE + 2) <= (e as int) * inner <= (16
                    * SCALE as int) * (4 * SCALE + 2),
                SCALE == 65536,
        ;
    }
    q as i64
}

/// Provides logic for refraction of a unit vector about a unit normal with a
/// fixed-point refraction ratio.
pub fn refract(uv: &Vec3, n: &Vec3, etai_over_etat: i64) -> (r: Vec3)
    requires
        vec_in_bounds(*uv, SCALE as int),
        vec_in_bounds(*n, SCALE as int),
        1 <= etai_over_etat <= 16 * SCALE,
    ensures
        r == spec_refract(*uv, *n, etai_over_etat as int),
        vec_in_bounds(r, 16777216),
{
    proof {
        lemma_dot_bound(*uv, *n, SCALE as int, SCALE as int);
    }
    let d = uv.dot(*n);
    let c0 = div_floor(-d, SCALE as i128);
    proof {
        lemma_div_floor_is_spec_div(-d as int, SCALE as int, c0 as int);
        assert(-3 * SCALE - 1 <= c0 <= 3 * SCALE) by (nonlinear_arith)
            requires
                (SCALE as int) * c0 <= -d < (SCALE as int) * (c0 + 1),
                -3 * (SCALE as int) * SCALE <= d <= 3 * (SCALE as int) * SCALE,
                SCALE == 65536,
        ;
    }
    let cos: i64 = if (c0 as i64) <= SCALE {
        c0 as i64
    } else {
        SCALE
    };
    let px = refract_perp_comp(uv.x, n.x, cos, etai_over_etat);
    let py = refract_perp_comp(uv.y, n.y, cos, etai_over_etat);
    let pz = refract_perp_comp(uv.z, n.z, cos, etai_over_etat);
    let perp = Vec3::new(px, py, pz);
    proof {
        lemma_dot_bound(perp, perp, 4250000, 4250000);
        lemma_dot_self_nonneg(perp);
    }
    let pp = perp.dot(perp);
    let s2 = (SCALE as i128) * (SCALE as i128) - pp;
    let s2a = if s2 < 0 {
        -s2
    } else {
        s2
    };
    let k = isqrt(s2a as u128);
    proof {
        assert(k <= 7362132) by (nonlinear_arith)
            requires
                k * k <= s2a,
                0 <= s2a <= 54187500000000,
        ;
    }
    let ki = k as i128;
    proof {
        lemma_mul_bound2(ki as int, n.x as int, 7362132, SCALE as int);
        lemma_mul_bound2(ki as int, n.y as int, 7362132, SCALE as int);
        lemma_mul_bound2(ki as int, n.z as int, 7362132, SCALE as int);
    }
    let kx = div_floor(ki * (n.x as i128), SCALE as i128);
    let ky = div_floor(ki * (n.y as i128), SCALE as i128);
    let kz = div_floor(ki * (n.z as i128), SCALE as i128);
    proof {
        lemma_div_floor_is_spec_div(ki as int * n.x, SCALE as int, kx as int);
        lemma_div_floor_is_spec_div(ki as int * n.y, SCALE as int, ky as int);
        lemma_div_floor_is_spec_div(ki as int * n.z, SCALE as int, kz as int);
        lemma_refract_par_bound(ki as int * n.x, kx as int);
        lemma_refract_par_bound(ki as int * n.y, ky as int);
        lemma_refract_par_bound(ki as int * n.z, kz as int);
    }
    Vec3::new(px - kx as i64, py - ky as i64, pz - kz as i64)
}

/// The parallel component of a refraction stays within bounds.
proof fn lemma_refract_par_bound(num: int, q: int)
    requires
        -482484682752 <= num <= 482484682752,
        (SCALE as int) * q <= num < (SCALE as int) * (q + 1),
    ensures
        -7362133 <= q <= 7362132,
{
    assert(-7362133 <= q <= 7362132) by (nonlinear_arith)
        requires
            -482484682752 <= num <= 482484682752,
            (SCALE as int) * q <= num < (SCALE as int) * (q + 1),
            SCALE == 65536,
    ;
}

/// Schlick's approximation of reflectance, in fixed point, every division
/// rounded toward negative infinity.
pub open spec fn spec_reflectance(cosine: int, ref_idx: int) -> int {
    let sr = ((SCALE - ref_idx) * SCALE) / (SCALE + ref_idx);
    let r0 = (sr * sr) / (SCALE as int);
    let q = SCALE - cosine;
    let t2 = (q * q) / (SCALE as int);
    let t4 = (t2 * t2) / (SCALE as int);
    let t5 = (t4 * q) / (SCALE as int);
    r0 + ((SCALE - r0) * t5) / (SCALE as int)
}

/// Using Schlick's approximation for reflectance.
pub fn reflectance(cosine: i64, ref_idx: i64) -> (r: i64)
    requires
        -3 * SCALE - 1 <= cosine <= SCALE,
        1 <= ref_idx <= 16 * SCALE,
    ensures
        r == spec_reflectance(cosine as int, ref_idx as int),
        -3500 <= r <= 1200 * SCALE,
{
    proof {
        lemma_mul_bound2((SCALE - ref_idx) as int, SCALE as int, 16 * SCALE as int, SCALE as int);
    }
    let srn = ((SCALE - ref_idx) as i128) * (SCALE as i128);
    let sr = div_floor(srn, (SCALE + ref_idx) as i128);
    proof {
        lemma_div_floor_is_spec_div(srn as int, (SCALE + ref_idx) as int, sr as int);
        assert(-SCALE - 1 <= sr <= SCALE) by (nonlinear_arith)
            requires
                ((SCALE + ref_idx) as int) * sr <= (SCALE - ref_idx) * (SCALE as int) < ((SCALE
                    + ref_idx) as int) * (sr + 1),
                1 <= ref_idx,
                SCALE == 65536,
        ;
        lemma_mul_bound2(sr as int, sr as int, SCALE + 1, SCALE + 1);
        assert(sr * sr >= 0) by (nonlinear_arith);
    }
    let r0 = div_floor(sr * sr, SCALE as i128);
    proof {
        lemma_div_floor_is_spec_div(sr as int * sr, SCALE as int, r0 as int);
        assert(0 <= r0 <= SCALE + 3) by (nonlinear_arith)
            requires
                (SCALE as int) * r0 <= sr * sr < (SCALE as int) * (r0 + 1),
                0 <= sr * sr <= (SCALE + 1) * (SCALE + 1),
                SCALE == 65536,
        ;
    }
    let q = (SCALE - cosine) as i128;
    proof {
        assert(0 <= q * q <= 68720001537) by (nonlinear_arith)
            requires
                0 <= q <= 262145,
        ;
    }
    let t2 = div_floor(q * q, SCALE as i128);
    proof {
        lemma_div_floor_is_spec_div(q as int * q, SCALE as int, t2 as int);
        assert(0 <= t2 <= 17 * SCALE) by (nonlinear_arith)
            requires
                (SCALE as int) * t2 <= q * q < (SCALE as int) * (t2 + 1),
                0 <= q <= 4 * SCALE + 1,
                SCALE == 65536,
        ;
    }
    proof {
        lemma_mul_bound2(t2 as int, t2 as int, 17 * SCALE as int, 17 * SCALE as int);
    }
    let t4 = div_floor(t2 * t2, SCALE as i128);
    proof {
        lemma_div_floor_is_spec_div(t2 as int * t2, SCALE as int, t4 as int);
        assert(0 <= t4 <= 289 * SCALE) by (nonlinear_arith)
            requires
                (SCALE as int) * t4 <= t2 * t2 < (SCALE as int) * (t4 + 1),
                0 <= t2 <= 17 * SCALE,
                SCALE == 65536,
        ;
    }
    proof {
        lemma_mul_bound2(t4 as int, q as int, 289 * SCALE as int, 4 * SCALE + 1);
    }
    let t5 = div_floor(t4 * q, SCALE as i128);
    proof {
        lemma_div_floor_is_spec_div(t4 as int * q, SCALE as int, t5 as int);
        assert(0 <= t5 <= 1157 * SCALE) by (nonlinear_arith)
            requires
                (SCALE as int) * t5 <= t4 * q < (SCALE as int) * (t5 + 1),
                0 <= t4 <= 289 * SCALE,
                0 <= q <= 4 * SCALE + 1,
                SCALE == 65536,
        ;
    }
    proof {
        lemma_mul_bound2(SCALE - r0 as int, t5 as int, SCALE as int, 1157 * SCALE as int);
    }
    let fin = div_floor(((SCALE as i128) - r0) * t5, SCALE as i128);
    proof {
        lemma_div_floor_is_spec_div((SCALE - r0 as int) * t5, SCALE as int, fin as int);
        assert(fin <= 1157 * SCALE && -3500 <= fin) by (nonlinear_arith)
            requires
                (SCALE as int) * fin <= (SCALE - r0 as int) * t5 < (SCALE as int) * (fin + 1),
                -3 <= SCALE - r0 as int <= SCALE,
                0 <= t5 <= 1157 * SCALE,
                SCALE == 65536,
        ;
    }
    (r0 as i64) + (fin as i64)
}

} // verus!
