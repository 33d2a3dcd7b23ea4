//! Fixed-point scale constants and exact integer helpers: floor and ceiling
//! division, integer square roots, and comparison of rationals by
//! cross-multiplication.

use vstd::prelude::*;

verus! {

/// Number of sub-units in one world unit. Ray parameters, unit vectors and
/// color channels are all carried as multiples of `1 / SCALE`.
pub const SCALE: i64 = 65536;

/// Largest magnitude allowed for a coordinate of a point, a direction, or a
/// box corner, chosen so that all intermediate products fit in `i128`.
pub const COORD_BOUND: i64 = 16777216;

/// Largest magnitude allowed for a ray-parameter window bound, in `1 / SCALE`
/// units, chosen so that all intermediate products fit in `i128`.
pub const T_BOUND: i64 = 68719476736;

/// The lower end of the window the integrator traces in: about a thousandth
/// of a world unit, which keeps scattered rays from striking their own
/// origin.
pub const T_EPS: i64 = 66;

/// The greatest integer `q` with `q * den <= num`, for `den > 0`.
pub fn div_floor(num: i128, den: i128) -> (q: i128)
    requires
        den > 0,
        num > i128::MIN,
    ensures
        den * q <= num < den * (q + 1),
{
    if num >= 0 {
        let q0: u128 = (num as u128) / (den as u128);
        proof {
            assert(q0 <= num && den * q0 <= num < den * (q0 + 1)) by (nonlinear_arith)
                requires
                    den > 0,
                    num >= 0,
                    q0 == num as u128 / den as u128,
            ;
        }
        q0 as i128
    } else {
        let n: u128 = (-num) as u128;
        let d: u128 = den as u128;
        let q0: u128 = n / d;
        let r: u128 = n % d;
        proof {
            assert(d * q0 + r == n && r < d && q0 <= n) by (nonlinear_arith)
                requires
                    d > 0,
                    q0 == n / d,
                    r == n % d,
            ;
        }
        if r == 0 {
            let q: i128 = -(q0 as i128);
            proof {
                assert(den * q <= num < den * (q + 1)) by (nonlinear_arith)
                    requires
                        den > 0,
                        num < 0,
                        den == d,
                        num == -(n as int),
                        d * q0 == n,
                        q == -(q0 as int),
                ;
            }
            q
        } else {
            let q: i128 = -(q0 as i128) - 1;
            proof {
                assert(den * q <= num < den * (q + 1)) by (nonlinear_arith)
                    requires
                        den > 0,
                        num < 0,
                        den == d,
                        num == -(n as int),
                        d * q0 + r == n,
                        0 < r < d,
                        q == -(q0 as int) - 1,
                ;
            }
            q
        }
    }
}

/// The least integer `q` with `q * den >= num`, for `den > 0`.
pub fn div_ceil(num: i128, den: i128) -> (q: i128)
    requires
        den > 0,
        i128::MIN < num,
        -num > i128::MIN,
    ensures
        den * (q - 1) < num <= den * q,
{
    let f = div_floor(-num, den);
    proof {
        assert(i128::MIN < f && den * (-f - 1) < num <= den * (-f)) by (nonlinear_arith)
            requires
                den > 0,
                num > i128::MIN,
                den * f <= -num < den * (f + 1),
        ;
    }
    -f
}

/// The greatest integer whose square is at most `r`.
pub open spec fn spec_isqrt(n: int) -> int {
    choose|r: int| 0 <= r && #[trigger] (r * r) <= n < (r + 1) * (r + 1)
}

/// Squares on either side of `n` pin the integer square root down uniquely.
pub proof fn lemma_isqrt_unique(n: int, r1: int, r2: int)
    requires
        0 <= r1 && r1 * r1 <= n < (r1 + 1) * (r1 + 1),
        0 <= r2 && r2 * r2 <= n < (r2 + 1) * (r2 + 1),
    ensures
        r1 == r2,
{
    assert(r1 == r2) by (nonlinear_arith)
        requires
            0 <= r1 && r1 * r1 <= n < (r1 + 1) * (r1 + 1),
            0 <= r2 && r2 * r2 <= n < (r2 + 1) * (r2 + 1),
    ;
}

/// Every nonnegative integer has an integer square root.
pub proof fn lemma_isqrt_exists(n: nat)
    ensures
        0 <= spec_isqrt(n as int),
        spec_isqrt(n as int) * spec_isqrt(n as int) <= n,
        n < (spec_isqrt(n as int) + 1) * (spec_isqrt(n as int) + 1),
    decreases n,
{
    if n == 0 {
        assert((0int) * (0int) == 0 && (0int + 1) * (0int + 1) == 1) by (nonlinear_arith);
        assert(exists|r: int| 0 <= r && #[trigger] (r * r) <= n < (r + 1) * (r + 1));
    } else {
        lemma_isqrt_exists((n - 1) as nat);
        let p = spec_isqrt(n - 1);
        if (p + 1) * (p + 1) <= n {
            assert(0 <= p + 1 && (p + 1) * (p + 1) <= n < ((p + 1) + 1) * ((p + 1) + 1))
                by (nonlinear_arith)
                requires
                    0 <= p,
                    n - 1 < (p + 1) * (p + 1) <= n,
            ;
            assert(exists|r: int| 0 <= r && #[trigger] (r * r) <= n < (r + 1) * (r + 1));
        } else {
            assert(0 <= p && p * p <= n < (p + 1) * (p + 1));
            assert(exists|r: int| 0 <= r && #[trigger] (r * r) <= n < (r + 1) * (r + 1));
        }
    }
}

/// The integer square root: the greatest `r` with `r * r <= n`.
pub fn isqrt(n: u128) -> (r: u128)
    ensures
        r * r <= n < (r + 1) * (r + 1),
        r == spec_isqrt(n as int),
{
    let mut lo: u128 = 0;
    let mut hi: u128 = 18446744073709551616;
    proof {
        assert(n < hi * hi) by (nonlinear_arith)
            requires
                hi == 18446744073709551616u128,
                n <= u128::MAX,
        ;
    }
    while lo + 1 < hi
        invariant
            lo < hi <= 18446744073709551616,
            lo * lo <= n,
            n < hi * hi,
        decreases hi - lo,
    {
        let mid: u128 = lo + (hi - lo) / 2;
        proof {
            assert(mid * mid <= u128::MAX) by (nonlinear_arith)
                requires
                    mid < 18446744073709551616u128,
            ;
        }
        if mid * mid <= n {
            lo = mid;
        } else {
            hi = mid;
        }
    }
    proof {
        lemma_isqrt_exists(n as nat);
        lemma_isqrt_unique(n as int, lo as int, spec_isqrt(n as int));
    }
    lo
}

/// `an / ad <= bn / bd`, for positive denominators, by cross-multiplication.
pub open spec fn rat_le(an: int, ad: int, bn: int, bd: int) -> bool {
    an * bd <= bn * ad
}

/// `an / ad < bn / bd`, for positive denominators, by cross-multiplication.
pub open spec fn rat_lt(an: int, ad: int, bn: int, bd: int) -> bool {
    an * bd < bn * ad
}

pub proof fn lemma_rat_le_trans(an: int, ad: int, bn: int, bd: int, cn: int, cd: int)
    requires
        ad > 0,
        bd > 0,
        cd > 0,
        rat_le(an, ad, bn, bd),
        rat_le(bn, bd, cn, cd),
    ensures
        rat_le(an, ad, cn, cd),
{
    assert(an * cd <= cn * ad) by (nonlinear_arith)
        requires
            ad > 0,
            bd > 0,
            cd > 0,
            an * bd <= bn * ad,
            bn * cd <= cn * bd,
    ;
}

pub proof fn lemma_rat_lt_le_trans(an: int, ad: int, bn: int, bd: int, cn: int, cd: int)
    requires
        ad > 0,
        bd > 0,
        cd > 0,
        rat_lt(an, ad, bn, bd),
        rat_le(bn, bd, cn, cd),
    ensures
        rat_lt(an, ad, cn, cd),
{
    assert(an * cd < cn * ad) by (nonlinear_arith)
        requires
            ad > 0,
            bd > 0,
            cd > 0,
            an * bd < bn * ad,
            bn * cd <= cn * bd,
    ;
}

pub proof fn lemma_rat_le_lt_trans(an: int, ad: int, bn: int, bd: int, cn: int, cd: int)
    requires
        ad > 0,
        bd > 0,
        cd > 0,
        rat_le(an, ad, bn, bd),
        rat_lt(bn, bd, cn, cd),
    ensures
        rat_lt(an, ad, cn, cd),
{
    assert(an * cd < cn * ad) by (nonlinear_arith)
        requires
            ad > 0,
            bd > 0,
            cd > 0,
            an * bd <= bn * ad,
            bn * cd < cn * bd,
    ;
}


/// Strictly ordered rationals have a rational strictly between them: their
/// midpoint.
pub proof fn lemma_rat_midpoint(an: int, ad: int, bn: int, bd: int)
    requires
        ad > 0,
        bd > 0,
        rat_lt(an, ad, bn, bd),
    ensures
        2 * ad * bd > 0,
        rat_lt(an, ad, an * bd + bn * ad, 2 * ad * bd),
        rat_lt(an * bd + bn * ad, 2 * ad * bd, bn, bd),
{
    assert(2 * ad * bd > 0 && an * (2 * ad * bd) < (an * bd + bn * ad) * ad && (an * bd + bn * ad)
        * bd < bn * (2 * ad * bd)) by (nonlinear_arith)
        requires
            ad > 0,
            bd > 0,
            an * bd < bn * ad,
    ;
}

} // verus!
