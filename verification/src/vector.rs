//! A three-component integer vector. Coordinates are carried in sub-units
//! (`SCALE` sub-units to one world unit); the linear operations are exact and
//! the rounded operations (fixed-point scaling, normalization) state their
//! floor semantics precisely.

use crate::num::{div_floor, isqrt, spec_isqrt, SCALE};
use vstd::prelude::*;

verus! {

/// Bound on vector components accepted by the linear operations.
pub const VEC_BOUND: i64 = 1125899906842624;

/// Bound on vector components accepted by `cross` and the fixed-point
/// products, so that their results stay within `i64`.
pub const CROSS_BOUND: i64 = 1073741824;

/// Defines a three dimensional data structure used for points in the 3D
/// Cartesian coordinate system, directions, and per-pixel color values.
#[derive(Clone, Copy, PartialEq, Eq, Structural, Debug)]
pub struct Vec3 {
    pub x: i64,
    pub y: i64,
    pub z: i64,
}

/// Every component of `v` lies within `[-b, b]`.
pub open spec fn vec_in_bounds(v: Vec3, b: int) -> bool {
    &&& -b <= v.x <= b
    &&& -b <= v.y <= b
    &&& -b <= v.z <= b
}

/// The exact componentwise difference.
pub open spec fn spec_minus(a: Vec3, b: Vec3) -> Vec3 {
    Vec3 { x: (a.x - b.x) as i64, y: (a.y - b.y) as i64, z: (a.z - b.z) as i64 }
}

/// The exact cross product.
pub open spec fn spec_cross(a: Vec3, b: Vec3) -> Vec3 {
    Vec3 {
        x: (a.y * b.z - a.z * b.y) as i64,
        y: (a.z * b.x - a.x * b.z) as i64,
        z: (a.x * b.y - a.y * b.x) as i64,
    }
}

/// The exact dot product.
pub open spec fn spec_dot(a: Vec3, b: Vec3) -> int {
    a.x * b.x + a.y * b.y + a.z * b.z
}

/// The euclidean length of `v` in sub-units, rounded down.
pub open spec fn spec_len(v: Vec3) -> int {
    spec_isqrt(spec_dot(v, v))
}

/// `v` scaled to (approximately) unit length `SCALE`, each component rounded
/// toward negative infinity.
pub open spec fn spec_unit(v: Vec3) -> Vec3 {
    Vec3 {
        x: ((v.x * SCALE) / spec_len(v)) as i64,
        y: ((v.y * SCALE) / spec_len(v)) as i64,
        z: ((v.z * SCALE) / spec_len(v)) as i64,
    }
}

/// A product of values bounded by `m` is bounded by `m * m`.
pub proof fn lemma_mul_bound(a: int, b: int, m: int)
    requires
        -m <= a <= m,
        -m <= b <= m,
        0 <= m,
    ensures
        -(m * m) <= a * b <= m * m,
{
    assert(-(m * m) <= a * b <= m * m) by (nonlinear_arith)
        requires
            -m <= a <= m,
            -m <= b <= m,
            0 <= m,
    ;
}

/// A product of values bounded by `ma` and `mb` is bounded by `ma * mb`.
pub proof fn lemma_mul_bound2(a: int, b: int, ma: int, mb: int)
    requires
        -ma <= a <= ma,
        -mb <= b <= mb,
        0 <= ma,
        0 <= mb,
    ensures
        -(ma * mb) <= a * b <= ma * mb,
{
    assert(-(ma * mb) <= a * b <= ma * mb) by (nonlinear_arith)
        requires
            -ma <= a <= ma,
            -mb <= b <= mb,
            0 <= ma,
            0 <= mb,
    ;
}

/// A dot product of vectors bounded by `ma` and `mb` is bounded by
/// `3 * ma * mb`.
pub proof fn lemma_dot_bound(a: Vec3, b: Vec3, ma: int, mb: int)
    requires
        vec_in_bounds(a, ma),
        vec_in_bounds(b, mb),
        0 <= ma,
        0 <= mb,
    ensures
        -3 * (ma * mb) <= spec_dot(a, b) <= 3 * (ma * mb),
{
    assert(-3 * (ma * mb) <= a.x * b.x + a.y * b.y + a.z * b.z <= 3 * (ma * mb))
        by (nonlinear_arith)
        requires
            -ma <= a.x <= ma && -ma <= a.y <= ma && -ma <= a.z <= ma,
            -mb <= b.x <= mb && -mb <= b.y <= mb && -mb <= b.z <= mb,
            0 <= ma,
            0 <= mb,
    ;
}

/// A dot product of a vector with itself is nonnegative.
pub proof fn lemma_dot_self_nonneg(v: Vec3)
    ensures
        spec_dot(v, v) >= 0,
        v.x * v.x <= spec_dot(v, v),
        v.y * v.y <= spec_dot(v, v),
        v.z * v.z <= spec_dot(v, v),
{
    assert(v.x * v.x >= 0 && v.y * v.y >= 0 && v.z * v.z >= 0) by (nonlinear_arith);
}

/// No component of a vector is longer than the whole vector.
proof fn lemma_comp_le_len(c: int, d: int, len: int)
    requires
        c * c <= d,
        0 <= len,
        len * len <= d < (len + 1) * (len + 1),
    ensures
        -len <= c <= len,
{
    assert(-len <= c <= len) by (nonlinear_arith)
        requires
            c * c <= d,
            0 <= len,
            len * len <= d < (len + 1) * (len + 1),
    ;
}

/// Dividing `c * SCALE` by a length no shorter than `|c|` lands in
/// `[-SCALE, SCALE]`.
proof fn lemma_unit_comp_bound(c: int, len: int, q: int)
    requires
        len > 0,
        -len <= c <= len,
        len * q <= c * SCALE < len * (q + 1),
    ensures
        -SCALE <= q <= SCALE,
{
    assert(-SCALE <= q <= SCALE) by (nonlinear_arith)
        requires
            len > 0,
            -len <= c <= len,
            len * q <= c * SCALE < len * (q + 1),
            SCALE == 65536,
    ;
}

/// The normalized vector of a nonzero input is unit-scaled, at the
/// specification level.
pub proof fn lemma_spec_unit_bounds(v: Vec3)
    requires
        vec_in_bounds(v, VEC_BOUND as int),
        !(v.x == 0 && v.y == 0 && v.z == 0),
    ensures
        spec_len(v) >= 1,
        vec_in_bounds(spec_unit(v), SCALE as int),
        spec_unit(v).x == (v.x * SCALE) / spec_len(v),
        spec_unit(v).y == (v.y * SCALE) / spec_len(v),
        spec_unit(v).z == (v.z * SCALE) / spec_len(v),
{
    lemma_dot_self_nonneg(v);
    crate::num::lemma_isqrt_exists(spec_dot(v, v) as nat);
    let len = spec_len(v);
    assert(spec_dot(v, v) >= 1) by (nonlinear_arith)
        requires
            spec_dot(v, v) == v.x * v.x + v.y * v.y + v.z * v.z,
            !(v.x == 0 && v.y == 0 && v.z == 0),
    ;
    assert(len >= 1) by (nonlinear_arith)
        requires
            len * len <= spec_dot(v, v),
            spec_dot(v, v) >= 1,
            len >= 0,
            (len + 1) * (len + 1) > spec_dot(v, v),
    ;
    lemma_comp_le_len(v.x as int, spec_dot(v, v), len);
    lemma_comp_le_len(v.y as int, spec_dot(v, v), len);
    lemma_comp_le_len(v.z as int, spec_dot(v, v), len);
    crate::sphere::lemma_floor_div_range(v.x * SCALE, len);
    crate::sphere::lemma_floor_div_range(v.y * SCALE, len);
    crate::sphere::lemma_floor_div_range(v.z * SCALE, len);
    lemma_unit_comp_bound(v.x as int, len, (v.x * SCALE) / len);
    lemma_unit_comp_bound(v.y as int, len, (v.y * SCALE) / len);
    lemma_unit_comp_bound(v.z as int, len, (v.z * SCALE) / len);
}

/// One component's contribution to the squared norm of a normalized vector,
/// bounded through the floor rounding: `a` is the scaled component after
/// rounding, `b` before.
proof fn lemma_unit_norm_comp(a: int, b: int, len: int)
    requires
        len > 0,
        b - len < a <= b,
        -(len * SCALE) <= b <= len * SCALE,
    ensures
        a * a <= b * b + 2 * (len * (len * SCALE)) + len * len,
        a * a >= b * b - 2 * (len * (len * SCALE)),
{
    assert(a * a <= b * b + 2 * (len * (len * SCALE)) + len * len && a * a >= b * b - 2 * (len
        * (len * SCALE))) by (nonlinear_arith)
        requires
            len > 0,
            b - len < a <= b,
            -(len * SCALE) <= b <= len * SCALE,
            SCALE == 65536,
    ;
}

/// Normalizing a vector no shorter than a quarter unit gives a vector whose
/// squared length stays within a narrow window around `SCALE * SCALE`.
pub proof fn lemma_spec_unit_norm_window(v: Vec3)
    requires
        vec_in_bounds(v, VEC_BOUND as int),
        268435456 <= spec_dot(v, v),
    ensures
        SCALE * SCALE - 6 * SCALE <= spec_dot(spec_unit(v), spec_unit(v)) <= SCALE * SCALE + 15
            * SCALE,
{
    let d = spec_dot(v, v);
    lemma_dot_self_nonneg(v);
    crate::num::lemma_isqrt_exists(d as nat);
    let len = spec_len(v);
    assert(len >= 16384) by (nonlinear_arith)
        requires
            d >= 268435456,
            d < (len + 1) * (len + 1),
            len >= 0,
    ;
    lemma_spec_unit_bounds(v);
    lemma_comp_le_len(v.x as int, d, len);
    lemma_comp_le_len(v.y as int, d, len);
    lemma_comp_le_len(v.z as int, d, len);
    let qx = (v.x * SCALE) / len;
    let qy = (v.y * SCALE) / len;
    let qz = (v.z * SCALE) / len;
    crate::sphere::lemma_floor_div_range(v.x * SCALE, len);
    crate::sphere::lemma_floor_div_range(v.y * SCALE, len);
    crate::sphere::lemma_floor_div_range(v.z * SCALE, len);
    let ax = len * qx;
    let ay = len * qy;
    let az = len * qz;
    let bx = v.x * SCALE;
    let by = v.y * SCALE;
    let bz = v.z * SCALE;
    assert(len * (qx + 1) == ax + len && len * (qy + 1) == ay + len && len * (qz + 1) == az + len)
        by (nonlinear_arith)
        requires
            ax == len * qx,
            ay == len * qy,
            az == len * qz,
    ;
    assert(-(len * SCALE) <= bx <= len * SCALE && -(len * SCALE) <= by <= len * SCALE && -(len
        * SCALE) <= bz <= len * SCALE) by (nonlinear_arith)
        requires
            -len <= v.x <= len,
            -len <= v.y <= len,
            -len <= v.z <= len,
            bx == v.x * SCALE,
            by == v.y * SCALE,
            bz == v.z * SCALE,
            SCALE == 65536,
    ;
    lemma_unit_norm_comp(ax, bx, len);
    lemma_unit_norm_comp(ay, by, len);
    lemma_unit_norm_comp(az, bz, len);
    assert(bx * bx == 4294967296 * (v.x * v.x)) by (nonlinear_arith)
        requires
            bx == v.x * SCALE,
            SCALE == 65536,
    ;
    assert(by * by == 4294967296 * (v.y * v.y)) by (nonlinear_arith)
        requires
            by == v.y * SCALE,
            SCALE == 65536,
    ;
    assert(bz * bz == 4294967296 * (v.z * v.z)) by (nonlinear_arith)
        requires
            bz == v.z * SCALE,
            SCALE == 65536,
    ;
    assert(bx * bx + by * by + bz * bz == 4294967296 * d);
    let u = spec_unit(v);
    let uu = spec_dot(u, u);
    assert(u.x == qx && u.y == qy && u.z == qz);
    assert(ax * ax == (len * len) * (qx * qx) && ay * ay == (len * len) * (qy * qy) && az * az
        == (len * len) * (qz * qz)) by (nonlinear_arith)
        requires
            ax == len * qx,
            ay == len * qy,
            az == len * qz,
    ;
    assert((len * len) * uu == (len * len) * (qx * qx) + (len * len) * (qy * qy) + (len * len) * (
    qz * qz)) by (nonlinear_arith)
        requires
            uu == qx * qx + qy * qy + qz * qz,
    ;
    assert((len * len) * uu <= 4294967296 * d + 6 * (len * (len * SCALE)) + 3 * (len * len));
    assert((len * len) * uu >= 4294967296 * d - 6 * (len * (len * SCALE)));
    assert(4294967296 * d <= 4294967296 * ((len + 1) * (len + 1) - 1)) by (nonlinear_arith)
        requires
            d < (len + 1) * (len + 1),
    ;
    assert(4294967296 * d >= 4294967296 * (len * len)) by (nonlinear_arith)
        requires
            len * len <= d,
    ;
    assert(uu <= SCALE * SCALE + 15 * SCALE) by (nonlinear_arith)
        requires
            (len * len) * uu <= 4294967296 * ((len + 1) * (len + 1) - 1) + 6 * (len * (len
                * SCALE)) + 3 * (len * len),
            len >= 16384,
            SCALE == 65536,
    ;
    assert(uu >= SCALE * SCALE - 6 * SCALE) by (nonlinear_arith)
        requires
            (len * len) * uu >= 4294967296 * (len * len) - 6 * (len * (len * SCALE)),
            len >= 16384,
            SCALE == 65536,
    ;
}

impl Vec3 {
    /// Creates a new Vec3.
    pub fn new(x: i64, y: i64, z: i64) -> (v: Vec3)
        ensures
            v == (Vec3 { x, y, z }),
    {
        Vec3 { x, y, z }
    }

    /// This function returns the x coordinate of the given vector.
    pub fn x(self) -> (r: i64)
        ensures
            r == self.x,
    {
        self.x
    }

    /// This function returns the y coordinate of the given vector.
    pub fn y(self) -> (r: i64)
        ensures
            r == self.y,
    {
        self.y
    }

    /// This function returns the z coordinate of the given vector.
    pub fn z(self) -> (r: i64)
        ensures
            r == self.z,
    {
        self.z
    }

    /// Componentwise sum.
    pub fn plus(self, rhs: Vec3) -> (r: Vec3)
        requires
            vec_in_bounds(self, VEC_BOUND as int),
            vec_in_bounds(rhs, VEC_BOUND as int),
        ensures
            r == (Vec3 { x: (self.x + rhs.x) as i64, y: (self.y + rhs.y) as i64, z: (self.z + rhs.z) as i64 }),
            r.x == self.x + rhs.x && r.y == self.y + rhs.y && r.z == self.z + rhs.z,
    {
        Vec3 { x: self.x + rhs.x, y: self.y + rhs.y, z: self.z + rhs.z }
    }

    /// Componentwise difference.
    pub fn minus(self, rhs: Vec3) -> (r: Vec3)
        requires
            vec_in_bounds(self, VEC_BOUND as int),
            vec_in_bounds(rhs, VEC_BOUND as int),
        ensures
            r.x == self.x - rhs.x && r.y == self.y - rhs.y && r.z == self.z - rhs.z,
            r == spec_minus(self, rhs),
    {
        Vec3 { x: self.x - rhs.x, y: self.y - rhs.y, z: self.z - rhs.z }
    }

    /// Componentwise negation.
    pub fn neg(self) -> (r: Vec3)
        requires
            vec_in_bounds(self, VEC_BOUND as int),
        ensures
            r.x == -self.x && r.y == -self.y && r.z == -self.z,
    {
        Vec3 { x: -self.x, y: -self.y, z: -self.z }
    }

    /// This function returns the dot product of the given vector with any
    /// other vector, exactly.
    pub fn dot(self, rhs: Vec3) -> (r: i128)
        requires
            vec_in_bounds(self, VEC_BOUND as int),
            vec_in_bounds(rhs, VEC_BOUND as int),
        ensures
            r == spec_dot(self, rhs),
    {
        proof {
            lemma_mul_bound(self.x as int, rhs.x as int, VEC_BOUND as int);
            lemma_mul_bound(self.y as int, rhs.y as int, VEC_BOUND as int);
            lemma_mul_bound(self.z as int, rhs.z as int, VEC_BOUND as int);
        }
        (self.x as i128) * (rhs.x as i128) + (self.y as i128) * (rhs.y as i128) + (self.z as i128)
            * (rhs.z as i128)
    }

    /// This function returns the cross product of the given vector with any
    /// other vector, exactly.
    pub fn cross(self, rhs: Vec3) -> (r: Vec3)
        requires
            vec_in_bounds(self, CROSS_BOUND as int),
            vec_in_bounds(rhs, CROSS_BOUND as int),
        ensures
            r.x == self.y * rhs.z - self.z * rhs.y,
            r.y == self.z * rhs.x - self.x * rhs.z,
            r.z == self.x * rhs.y - self.y * rhs.x,
            r == spec_cross(self, rhs),
    {
        proof {
            lemma_mul_bound(self.x as int, rhs.x as int, CROSS_BOUND as int);
            lemma_mul_bound(self.x as int, rhs.y as int, CROSS_BOUND as int);
            lemma_mul_bound(self.x as int, rhs.z as int, CROSS_BOUND as int);
            lemma_mul_bound(self.y as int, rhs.x as int, CROSS_BOUND as int);
            lemma_mul_bound(self.y as int, rhs.y as int, CROSS_BOUND as int);
            lemma_mul_bound(self.y as int, rhs.z as int, CROSS_BOUND as int);
            lemma_mul_bound(self.z as int, rhs.x as int, CROSS_BOUND as int);
            lemma_mul_bound(self.z as int, rhs.y as int, CROSS_BOUND as int);
            lemma_mul_bound(self.z as int, rhs.z as int, CROSS_BOUND as int);
        }
        Vec3 {
            x: ((self.y as i128) * (rhs.z as i128) - (self.z as i128) * (rhs.y as i128)) as i64,
            y: ((self.z as i128) * (rhs.x as i128) - (self.x as i128) * (rhs.z as i128)) as i64,
            z: ((self.x as i128) * (rhs.y as i128) - (self.y as i128) * (rhs.x as i128)) as i64,
        }
    }

    /// This function returns the squared length of the given vector, exactly.
    pub fn length_squared(self) -> (r: i128)
        requires
            vec_in_bounds(self, VEC_BOUND as int),
        ensures
            r == spec_dot(self, self),
            r >= 0,
    {
        proof {
            lemma_dot_self_nonneg(self);
        }
        self.dot(self)
    }

    /// This function returns the length of the given vector in sub-units,
    /// rounded down.
    pub fn length(self) -> (r: i64)
        requires
            vec_in_bounds(self, VEC_BOUND as int),
        ensures
            r == spec_len(self),
            r >= 0,
            r * r <= spec_dot(self, self) < (r + 1) * (r + 1),
    {
        let d = self.length_squared();
        let r = isqrt(d as u128);
        proof {
            lemma_mul_bound(self.x as int, self.x as int, VEC_BOUND as int);
            lemma_mul_bound(self.y as int, self.y as int, VEC_BOUND as int);
            lemma_mul_bound(self.z as int, self.z as int, VEC_BOUND as int);
            assert(r <= 0x7fffffffffffffff) by (nonlinear_arith)
                requires
                    r * r <= d,
                    d <= 3 * (VEC_BOUND as int) * (VEC_BOUND as int),
                    VEC_BOUND == 1125899906842624i64,
            ;
        }
        r as i64
    }

    /// This function produces the unit vector of any input vector, scaled so
    /// that unit length is `SCALE` sub-units, each component rounded toward
    /// negative infinity. The input must not be the zero vector.
    pub fn unit_vector(vec: Self) -> (r: Self)
        requires
            vec_in_bounds(vec, VEC_BOUND as int),
            !(vec.x == 0 && vec.y == 0 && vec.z == 0),
        ensures
            r == spec_unit(vec),
            vec_in_bounds(r, SCALE as int),
            spec_len(vec) >= 1,
    {
        let len = vec.length();
        proof {
            lemma_dot_self_nonneg(vec);
            assert(spec_dot(vec, vec) >= 1) by (nonlinear_arith)
                requires
                    spec_dot(vec, vec) == vec.x * vec.x + vec.y * vec.y + vec.z * vec.z,
                    !(vec.x == 0 && vec.y == 0 && vec.z == 0),
            ;
            assert(len >= 1) by (nonlinear_arith)
                requires
                    len * len <= spec_dot(vec, vec),
                    spec_dot(vec, vec) >= 1,
                    len >= 0,
                    (len + 1) * (len + 1) > spec_dot(vec, vec),
            ;
            lemma_comp_le_len(vec.x as int, spec_dot(vec, vec), len as int);
            lemma_comp_le_len(vec.y as int, spec_dot(vec, vec), len as int);
            lemma_comp_le_len(vec.z as int, spec_dot(vec, vec), len as int);
            lemma_mul_bound(vec.x as int, SCALE as int, VEC_BOUND as int);
            lemma_mul_bound(vec.y as int, SCALE as int, VEC_BOUND as int);
            lemma_mul_bound(vec.z as int, SCALE as int, VEC_BOUND as int);
        }
        let qx = div_floor((vec.x as i128) * (SCALE as i128), len as i128);
        let qy = div_floor((vec.y as i128) * (SCALE as i128), len as i128);
        let qz = div_floor((vec.z as i128) * (SCALE as i128), len as i128);
        proof {
            lemma_unit_comp_bound(vec.x as int, len as int, qx as int);
            lemma_unit_comp_bound(vec.y as int, len as int, qy as int);
            lemma_unit_comp_bound(vec.z as int, len as int, qz as int);
            lemma_div_floor_is_spec_div((vec.x as i128) * (SCALE as i128), len as int, qx as int);
            lemma_div_floor_is_spec_div((vec.y as i128) * (SCALE as i128), len as int, qy as int);
            lemma_div_floor_is_spec_div((vec.z as i128) * (SCALE as i128), len as int, qz as int);
        }
        Vec3 { x: qx as i64, y: qy as i64, z: qz as i64 }
    }

    /// Componentwise fixed-point product: each component of the result is
    /// `a * b / SCALE`, rounded toward negative infinity.
    pub fn mul_fixed(self, rhs: Vec3) -> (r: Vec3)
        requires
            vec_in_bounds(self, CROSS_BOUND as int),
            vec_in_bounds(rhs, CROSS_BOUND as int),
        ensures
            r.x == (self.x * rhs.x) / (SCALE as int),
            r.y == (self.y * rhs.y) / (SCALE as int),
            r.z == (self.z * rhs.z) / (SCALE as int),
            vec_in_bounds(r, VEC_BOUND as int),
    {
        proof {
            lemma_mul_bound(self.x as int, rhs.x as int, CROSS_BOUND as int);
            lemma_mul_bound(self.y as int, rhs.y as int, CROSS_BOUND as int);
            lemma_mul_bound(self.z as int, rhs.z as int, CROSS_BOUND as int);
        }
        let qx = div_floor((self.x as i128) * (rhs.x as i128), SCALE as i128);
        let qy = div_floor((self.y as i128) * (rhs.y as i128), SCALE as i128);
        let qz = div_floor((self.z as i128) * (rhs.z as i128), SCALE as i128);
        proof {
            lemma_div_floor_is_spec_div((self.x as i128) * (rhs.x as i128), SCALE as int, qx as int);
            lemma_div_floor_is_spec_div((self.y as i128) * (rhs.y as i128), SCALE as int, qy as int);
            lemma_div_floor_is_spec_div((self.z as i128) * (rhs.z as i128), SCALE as int, qz as int);
            lemma_quotient_bound((self.x as i128) * (rhs.x as i128), qx as int);
            lemma_quotient_bound((self.y as i128) * (rhs.y as i128), qy as int);
            lemma_quotient_bound((self.z as i128) * (rhs.z as i128), qz as int);
        }
        Vec3 { x: qx as i64, y: qy as i64, z: qz as i64 }
    }

    /// The vector scaled by the fixed-point factor `k`: each component of the
    /// result is `v * k / SCALE`, rounded toward negative infinity.
    pub fn scale_fixed(self, k: i64) -> (r: Vec3)
        requires
            vec_in_bounds(self, CROSS_BOUND as int),
            -crate::num::T_BOUND <= k <= crate::num::T_BOUND,
        ensures
            r.x == (self.x * k) / (SCALE as int),
            r.y == (self.y * k) / (SCALE as int),
            r.z == (self.z * k) / (SCALE as int),
            vec_in_bounds(r, VEC_BOUND as int),
    {
        proof {
            lemma_mul_bound2(self.x as int, k as int, CROSS_BOUND as int, crate::num::T_BOUND as int);
            lemma_mul_bound2(self.y as int, k as int, CROSS_BOUND as int, crate::num::T_BOUND as int);
            lemma_mul_bound2(self.z as int, k as int, CROSS_BOUND as int, crate::num::T_BOUND as int);
        }
        let qx = div_floor((self.x as i128) * (k as i128), SCALE as i128);
        let qy = div_floor((self.y as i128) * (k as i128), SCALE as i128);
        let qz = div_floor((self.z as i128) * (k as i128), SCALE as i128);
        proof {
            lemma_div_floor_is_spec_div((self.x as i128) * (k as i128), SCALE as int, qx as int);
            lemma_div_floor_is_spec_div((self.y as i128) * (k as i128), SCALE as int, qy as int);
            lemma_div_floor_is_spec_div((self.z as i128) * (k as i128), SCALE as int, qz as int);
            lemma_quotient_bound((self.x as i128) * (k as i128), qx as int);
            lemma_quotient_bound((self.y as i128) * (k as i128), qy as int);
            lemma_quotient_bound((self.z as i128) * (k as i128), qz as int);
        }
        Vec3 { x: qx as i64, y: qy as i64, z: qz as i64 }
    }
}

/// A numerator within the fixed-point product range keeps the quotient by
/// `SCALE` within the linear range.
proof fn lemma_quotient_bound(num: int, q: int)
    requires
        -73786976294838206464 <= num <= 73786976294838206464,
        SCALE * q <= num < SCALE * (q + 1),
    ensures
        -(VEC_BOUND as int) <= q <= VEC_BOUND as int,
{
    assert(-(VEC_BOUND as int) <= q <= VEC_BOUND as int) by (nonlinear_arith)
        requires
            -73786976294838206464 <= num <= 73786976294838206464,
            SCALE * q <= num < SCALE * (q + 1),
            SCALE == 65536,
            VEC_BOUND == 1125899906842624i64,
    ;
}

/// Floor division, as computed by `div_floor`, agrees with the spec-level `/`
/// for a positive divisor.
pub proof fn lemma_div_floor_is_spec_div(num: int, den: int, q: int)
    requires
        den > 0,
        den * q <= num < den * (q + 1),
    ensures
        q == num / den,
{
    assert(den * (q + 1) == den * q + den) by (nonlinear_arith);
    assert(num == q * den + (num - den * q)) by (nonlinear_arith);
    vstd::arithmetic::div_mod::lemma_fundamental_div_mod_converse(
        num,
        den,
        q,
        num - den * q,
    );
}

} // verus!
