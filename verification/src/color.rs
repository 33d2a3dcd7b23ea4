//! Colors as fixed-point RGB triples: a channel value of `SCALE` sub-units
//! stands for full intensity `1.0`.

use crate::num::{div_floor, isqrt, spec_isqrt, SCALE};
use crate::vector::{vec_in_bounds, Vec3, VEC_BOUND};
use vstd::prelude::*;

verus! {

/// Defines a pixel's color as an RGB value.
pub type Color = Vec3;

/// Largest channel value `anti_aliased` produces: just under full intensity.
pub const CHANNEL_CLAMP: i64 = 65470;

/// Every channel lies within `[0, SCALE]`.
pub open spec fn color_wf(c: Color) -> bool {
    &&& 0 <= c.x <= SCALE
    &&& 0 <= c.y <= SCALE
    &&& 0 <= c.z <= SCALE
}

/// One channel averaged over the samples, gamma-corrected by a square root,
/// and clamped to `[0, CHANNEL_CLAMP]`.
pub open spec fn spec_aa_channel(v: int, n: int) -> int {
    let avg = v / n;
    if avg <= 0 {
        0
    } else {
        let r = spec_isqrt(avg * SCALE);
        if r > CHANNEL_CLAMP {
            CHANNEL_CLAMP as int
        } else {
            r
        }
    }
}

/// Used to smoothen edges using antialiasing: averages an accumulated color
/// over the sample count, applies gamma correction, and clamps each channel.
pub fn anti_aliased(color: Color, samples_per_pixel: i32) -> (r: Color)
    requires
        samples_per_pixel >= 1,
        vec_in_bounds(color, VEC_BOUND as int),
    ensures
        r.x == spec_aa_channel(color.x as int, samples_per_pixel as int),
        r.y == spec_aa_channel(color.y as int, samples_per_pixel as int),
        r.z == spec_aa_channel(color.z as int, samples_per_pixel as int),
        0 <= r.x <= CHANNEL_CLAMP && 0 <= r.y <= CHANNEL_CLAMP && 0 <= r.z <= CHANNEL_CLAMP,
{
    let x = aa_channel(color.x, samples_per_pixel);
    let y = aa_channel(color.y, samples_per_pixel);
    let z = aa_channel(color.z, samples_per_pixel);
    Vec3::new(x, y, z)
}

/// One channel of `anti_aliased`.
fn aa_channel(v: i64, n: i32) -> (r: i64)
    requires
        n >= 1,
        -VEC_BOUND <= v <= VEC_BOUND,
    ensures
        r == spec_aa_channel(v as int, n as int),
        0 <= r <= CHANNEL_CLAMP,
{
    let avg = div_floor(v as i128, n as i128);
    proof {
        crate::vector::lemma_div_floor_is_spec_div(v as int, n as int, avg as int);
        assert(avg <= VEC_BOUND) by (nonlinear_arith)
            requires
                n >= 1,
                (n as int) * (avg as int) <= v <= VEC_BOUND,
        ;
    }
    if avg <= 0 {
        0
    } else {
        let s = isqrt((avg as u128) * (SCALE as u128));
        proof {
            assert(s * s <= avg * SCALE ==> s <= 0x7fffffffffffffff) by (nonlinear_arith)
                requires
                    avg <= VEC_BOUND,
                    VEC_BOUND == 1125899906842624i64,
                    SCALE == 65536,
                    s * s <= avg * SCALE,
            ;
        }
        let s64 = s as i64;
        if s64 > CHANNEL_CLAMP {
            CHANNEL_CLAMP
        } else {
            s64
        }
    }
}

/// One gamma-corrected channel scaled to the byte range.
pub fn channel_to_byte(c: i64) -> (r: u8)
    requires
        0 <= c <= CHANNEL_CLAMP,
    ensures
        r == (c * 256) / (SCALE as int),
        r <= 255,
{
    let q = div_floor((c as i128) * 256, SCALE as i128);
    proof {
        crate::vector::lemma_div_floor_is_spec_div(c * 256, SCALE as int, q as int);
        assert(0 <= q <= 255) by (nonlinear_arith)
            requires
                (SCALE as int) * q <= c * 256 < (SCALE as int) * (q + 1),
                0 <= c <= 65470,
                SCALE == 65536,
        ;
    }
    q as u8
}

/// Averages an accumulated color over the sample count, applies gamma
/// correction, and scales each channel to a byte.
pub fn gamma_correct(color: Color, samples_per_pixel: i32) -> (r: (u8, u8, u8))
    requires
        samples_per_pixel >= 1,
        vec_in_bounds(color, VEC_BOUND as int),
    ensures
        ({
            let aa = Vec3 {
                x: spec_aa_channel(color.x as int, samples_per_pixel as int) as i64,
                y: spec_aa_channel(color.y as int, samples_per_pixel as int) as i64,
                z: spec_aa_channel(color.z as int, samples_per_pixel as int) as i64,
            };
            r.0 == (aa.x * 256) / (SCALE as int) && r.1 == (aa.y * 256) / (SCALE as int) && r.2
                == (aa.z * 256) / (SCALE as int)
        }),
{
    let aa = anti_aliased(color, samples_per_pixel);
    (channel_to_byte(aa.x), channel_to_byte(aa.y), channel_to_byte(aa.z))
}

} // verus!
