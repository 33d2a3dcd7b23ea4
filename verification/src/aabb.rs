//! Axis-aligned bounding boxes: envelope merge and the slab intersection
//! test. The slab test decides, in exact integer arithmetic, whether the ray
//! meets the box within the parameter window; its contract speaks of a
//! rational witness parameter `tn / td`, so that the bounding-volume
//! hierarchy can prove it never prunes away a real intersection.

use crate::num::{rat_le, rat_lt, lemma_rat_le_trans, lemma_rat_lt_le_trans, lemma_rat_le_lt_trans, SCALE, T_BOUND};
use crate::ray::Ray;
use crate::vector::{lemma_mul_bound, vec_in_bounds, Vec3};
use vstd::prelude::*;

verus! {

/// Bound on the coordinates of box corners.
pub const BOX_BOUND: i64 = 67108864;

/// Bound on the numerators carried by the slab test.
const NMAX: i128 = 17592186044416;

/// Bound on the denominators carried by the slab test.
const DMAX: i128 = 67108864;

/// An axis-aligned box, described by two opposite corners.
#[derive(Clone, Copy, PartialEq, Eq, Structural, Debug)]
pub struct Aabb {
    pub min: Vec3,
    pub max: Vec3,
}

/// Both corners lie within the coordinate range the slab test accepts.
pub open spec fn aabb_wf(b: Aabb) -> bool {
    &&& vec_in_bounds(b.min, BOX_BOUND as int)
    &&& vec_in_bounds(b.max, BOX_BOUND as int)
}

/// `outer` contains `inner`, componentwise.
pub open spec fn aabb_contains(outer: Aabb, inner: Aabb) -> bool {
    &&& outer.min.x <= inner.min.x && inner.max.x <= outer.max.x
    &&& outer.min.y <= inner.min.y && inner.max.y <= outer.max.y
    &&& outer.min.z <= inner.min.z && inner.max.z <= outer.max.z
}

/// On one axis, the point reached at parameter `tn / td` (in `1 / SCALE`
/// units) from origin `o` along direction `d` lies between `mn` and `mx`.
pub open spec fn axis_ok(o: int, mn: int, mx: int, d: int, tn: int, td: int) -> bool {
    &&& (SCALE * (mn - o)) * td <= tn * d
    &&& tn * d <= (SCALE * (mx - o)) * td
}

/// As `axis_ok`, but strictly inside the slab.
pub open spec fn axis_strict(o: int, mn: int, mx: int, d: int, tn: int, td: int) -> bool {
    &&& (SCALE * (mn - o)) * td < tn * d
    &&& tn * d < (SCALE * (mx - o)) * td
}

/// The parameter `tn / td` lies within the window `[tmin, tmax]`.
pub open spec fn window_ok(tmin: int, tmax: int, tn: int, td: int) -> bool {
    tmin * td <= tn && tn <= tmax * td
}

/// The parameter `tn / td` lies strictly within the window `(tmin, tmax)`.
pub open spec fn window_strict(tmin: int, tmax: int, tn: int, td: int) -> bool {
    tmin * td < tn && tn < tmax * td
}

/// Some rational parameter in the window carries the ray inside the box on
/// all three axes.
pub open spec fn slab_sat(b: Aabb, orig: Vec3, dir: Vec3, tmin: int, tmax: int) -> bool {
    exists|tn: int, td: int|
        td > 0 && #[trigger] window_ok(tmin, tmax, tn, td)
            && axis_ok(orig.x as int, b.min.x as int, b.max.x as int, dir.x as int, tn, td)
            && axis_ok(orig.y as int, b.min.y as int, b.max.y as int, dir.y as int, tn, td)
            && axis_ok(orig.z as int, b.min.z as int, b.max.z as int, dir.z as int, tn, td)
}

/// Some rational parameter strictly inside the window carries the ray
/// strictly inside the box on all three axes.
pub open spec fn slab_sat_strict(b: Aabb, orig: Vec3, dir: Vec3, tmin: int, tmax: int) -> bool {
    exists|tn: int, td: int|
        td > 0 && #[trigger] window_strict(tmin, tmax, tn, td)
            && axis_strict(orig.x as int, b.min.x as int, b.max.x as int, dir.x as int, tn, td)
            && axis_strict(orig.y as int, b.min.y as int, b.max.y as int, dir.y as int, tn, td)
            && axis_strict(orig.z as int, b.min.z as int, b.max.z as int, dir.z as int, tn, td)
}

/// The parameter `tn / td` lies within the running rational bounds.
pub open spec fn in_rat(tn: int, td: int, ln: int, ld: int, hn: int, hd: int) -> bool {
    rat_le(ln, ld, tn, td) && rat_le(tn, td, hn, hd)
}

/// The parameter `tn / td` lies strictly within the running rational bounds.
pub open spec fn in_rat_strict(tn: int, td: int, ln: int, ld: int, hn: int, hd: int) -> bool {
    rat_lt(ln, ld, tn, td) && rat_lt(tn, td, hn, hd)
}

/// Exact comparison of two rationals with positive denominators.
fn rat_lt_exec(an: i128, ad: i128, bn: i128, bd: i128) -> (r: bool)
    requires
        0 < ad <= DMAX,
        0 < bd <= DMAX,
        -NMAX <= an <= NMAX,
        -NMAX <= bn <= NMAX,
    ensures
        r == rat_lt(an as int, ad as int, bn as int, bd as int),
{
    proof {
        lemma_mul_bound(an as int, bd as int, NMAX as int);
        lemma_mul_bound(bn as int, ad as int, NMAX as int);
    }
    an * bd < bn * ad
}

/// Narrows the running parameter bounds by one axis of the slab test.
/// Returns the narrowed bounds, or `None` when no parameter strictly inside
/// the old bounds passes strictly between `mn` and `mx` on this axis.
fn axis_clip(o: i64, mn: i64, mx: i64, d: i64, lo_n: i128, lo_d: i128, hi_n: i128, hi_d: i128) -> (r:
    Option<(i128, i128, i128, i128)>)
    requires
        -BOX_BOUND <= o <= BOX_BOUND,
        -BOX_BOUND <= mn <= BOX_BOUND,
        -BOX_BOUND <= mx <= BOX_BOUND,
        -crate::ray::RAY_BOUND <= d <= crate::ray::RAY_BOUND,
        0 < lo_d <= DMAX,
        0 < hi_d <= DMAX,
        -NMAX <= lo_n <= NMAX,
        -NMAX <= hi_n <= NMAX,
    ensures
        match r {
            Some(nb) => {
                &&& 0 < nb.1 <= DMAX && 0 < nb.3 <= DMAX
                &&& -NMAX <= nb.0 <= NMAX && -NMAX <= nb.2 <= NMAX
                &&& rat_lt(nb.0 as int, nb.1 as int, nb.2 as int, nb.3 as int)
                &&& forall|tn: int, td: int|
                    td > 0 && #[trigger] in_rat(tn, td, nb.0 as int, nb.1 as int, nb.2 as int, nb.3 as int)
                        ==> in_rat(tn, td, lo_n as int, lo_d as int, hi_n as int, hi_d as int)
                            && axis_ok(o as int, mn as int, mx as int, d as int, tn, td)
                &&& forall|tn: int, td: int|
                    td > 0 && #[trigger] in_rat_strict(tn, td, lo_n as int, lo_d as int, hi_n as int, hi_d as int)
                        && axis_strict(o as int, mn as int, mx as int, d as int, tn, td)
                        ==> in_rat_strict(tn, td, nb.0 as int, nb.1 as int, nb.2 as int, nb.3 as int)
                &&& forall|tn: int, td: int|
                    td > 0 && #[trigger] in_rat_strict(tn, td, nb.0 as int, nb.1 as int, nb.2 as int, nb.3 as int)
                        ==> in_rat_strict(tn, td, lo_n as int, lo_d as int, hi_n as int, hi_d as int)
                            && axis_strict(o as int, mn as int, mx as int, d as int, tn, td)
            },
            None => forall|tn: int, td: int|
                td > 0 ==> !(#[trigger] in_rat_strict(tn, td, lo_n as int, lo_d as int, hi_n as int, hi_d as int)
                    && axis_strict(o as int, mn as int, mx as int, d as int, tn, td)),
        },
{
    if d == 0 {
        if mn < o && o < mx {
            if rat_lt_exec(lo_n, lo_d, hi_n, hi_d) {
                proof {
                    assert forall|tn: int, td: int|
                        td > 0 && #[trigger] in_rat(tn, td, lo_n as int, lo_d as int, hi_n as int, hi_d as int)
                            implies in_rat(tn, td, lo_n as int, lo_d as int, hi_n as int, hi_d as int)
                                && axis_ok(o as int, mn as int, mx as int, d as int, tn, td) by {
                        assert((SCALE * (mn - o)) * td <= 0 == tn * d && tn * d <= (SCALE * (mx - o)) * td)
                            by (nonlinear_arith)
                            requires
                                td > 0,
                                d == 0,
                                SCALE * (mn - o) < 0 < SCALE * (mx - o),
                        ;
                    }
                    assert forall|tn: int, td: int|
                        td > 0 && #[trigger] in_rat_strict(tn, td, lo_n as int, lo_d as int, hi_n as int, hi_d as int)
                            implies in_rat_strict(tn, td, lo_n as int, lo_d as int, hi_n as int, hi_d as int)
                                && axis_strict(o as int, mn as int, mx as int, d as int, tn, td) by {
                        assert((SCALE * (mn - o)) * td < 0 == tn * d && tn * d < (SCALE * (mx - o)) * td)
                            by (nonlinear_arith)
                            requires
                                td > 0,
                                d == 0,
                                SCALE * (mn - o) < 0 < SCALE * (mx - o),
                        ;
                    }
                    assert(SCALE * (mn - o) < 0 < SCALE * (mx - o)) by (nonlinear_arith)
                        requires
                            mn < o < mx,
                            SCALE == 65536,
                    ;
                }
                Some((lo_n, lo_d, hi_n, hi_d))
            } else {
                proof {
                    assert forall|tn: int, td: int| td > 0
                        implies !(#[trigger] in_rat_strict(tn, td, lo_n as int, lo_d as int, hi_n as int, hi_d as int)
                            && axis_strict(o as int, mn as int, mx as int, d as int, tn, td)) by {
                        if in_rat_strict(tn, td, lo_n as int, lo_d as int, hi_n as int, hi_d as int) {
                            lemma_rat_lt_le_trans(lo_n as int, lo_d as int, tn, td, hi_n as int, hi_d as int);
                        }
                    }
                }
                None
            }
        } else {
            proof {
                assert forall|tn: int, td: int| td > 0
                    implies !(#[trigger] in_rat_strict(tn, td, lo_n as int, lo_d as int, hi_n as int, hi_d as int)
                        && axis_strict(o as int, mn as int, mx as int, d as int, tn, td)) by {
                    if axis_strict(o as int, mn as int, mx as int, d as int, tn, td) {
                        assert(mn < o && o < mx) by (nonlinear_arith)
                            requires
                                td > 0,
                                d == 0,
                                (SCALE * (mn - o)) * td < tn * d,
                                tn * d < (SCALE * (mx - o)) * td,
                                SCALE == 65536,
                        ;
                    }
                }
            }
            None
        }
    } else {
        let dd: i128 = d as i128;
        let an: i128 = (SCALE as i128) * ((mn as i128) - (o as i128));
        let bn: i128 = (SCALE as i128) * ((mx as i128) - (o as i128));
        let (cl_n, cl_d, ch_n, ch_d): (i128, i128, i128, i128) = if d > 0 {
            (an, dd, bn, dd)
        } else {
            (-bn, -dd, -an, -dd)
        };
        let take_cl = rat_lt_exec(lo_n, lo_d, cl_n, cl_d);
        let (nl_n, nl_d): (i128, i128) = if take_cl {
            (cl_n, cl_d)
        } else {
            (lo_n, lo_d)
        };
        let take_ch = rat_lt_exec(ch_n, ch_d, hi_n, hi_d);
        let (nh_n, nh_d): (i128, i128) = if take_ch {
            (ch_n, ch_d)
        } else {
            (hi_n, hi_d)
        };
        proof {
            assert forall|tn: int, td: int|
                td > 0 && #[trigger] in_rat_strict(tn, td, lo_n as int, lo_d as int, hi_n as int, hi_d as int)
                    && axis_strict(o as int, mn as int, mx as int, d as int, tn, td)
                    implies in_rat_strict(tn, td, nl_n as int, nl_d as int, nh_n as int, nh_d as int) by {
                if take_cl {
                    if d > 0 {
                        assert(cl_n * td < tn * cl_d) by (nonlinear_arith)
                            requires
                                cl_n == SCALE * (mn - o),
                                cl_d == d,
                                (SCALE * (mn - o)) * td < tn * d,
                        ;
                    } else {
                        assert(cl_n * td < tn * cl_d) by (nonlinear_arith)
                            requires
                                cl_n == -(SCALE * (mx - o)),
                                cl_d == -d,
                                tn * d < (SCALE * (mx - o)) * td,
                        ;
                    }
                }
                if take_ch {
                    if d > 0 {
                        assert(tn * ch_d < ch_n * td) by (nonlinear_arith)
                            requires
                                ch_n == SCALE * (mx - o),
                                ch_d == d,
                                tn * d < (SCALE * (mx - o)) * td,
                        ;
                    } else {
                        assert(tn * ch_d < ch_n * td) by (nonlinear_arith)
                            requires
                                ch_n == -(SCALE * (mn - o)),
                                ch_d == -d,
                                (SCALE * (mn - o)) * td < tn * d,
                        ;
                    }
                }
            }
        }
        if rat_lt_exec(nl_n, nl_d, nh_n, nh_d) {
            proof {
                assert forall|tn: int, td: int|
                    td > 0 && #[trigger] in_rat(tn, td, nl_n as int, nl_d as int, nh_n as int, nh_d as int)
                        implies in_rat(tn, td, lo_n as int, lo_d as int, hi_n as int, hi_d as int)
                            && axis_ok(o as int, mn as int, mx as int, d as int, tn, td) by {
                    if take_cl {
                        lemma_rat_lt_le_trans(lo_n as int, lo_d as int, cl_n as int, cl_d as int, tn, td);
                    } else {
                        assert(rat_le(cl_n as int, cl_d as int, lo_n as int, lo_d as int));
                        lemma_rat_le_trans(cl_n as int, cl_d as int, lo_n as int, lo_d as int, tn, td);
                    }
                    if take_ch {
                        lemma_rat_le_lt_trans(tn, td, ch_n as int, ch_d as int, hi_n as int, hi_d as int);
                    } else {
                        assert(rat_le(hi_n as int, hi_d as int, ch_n as int, ch_d as int));
                        lemma_rat_le_trans(tn, td, hi_n as int, hi_d as int, ch_n as int, ch_d as int);
                    }
                    if d > 0 {
                        assert((SCALE * (mn - o)) * td <= tn * d && tn * d <= (SCALE * (mx - o)) * td)
                            by (nonlinear_arith)
                            requires
                                cl_n == SCALE * (mn - o),
                                cl_d == d,
                                ch_n == SCALE * (mx - o),
                                ch_d == d,
                                cl_n * td <= tn * cl_d,
                                tn * ch_d <= ch_n * td,
                        ;
                    } else {
                        assert((SCALE * (mn - o)) * td <= tn * d && tn * d <= (SCALE * (mx - o)) * td)
                            by (nonlinear_arith)
                            requires
                                cl_n == -(SCALE * (mx - o)),
                                cl_d == -d,
                                ch_n == -(SCALE * (mn - o)),
                                ch_d == -d,
                                cl_n * td <= tn * cl_d,
                                tn * ch_d <= ch_n * td,
                        ;
                    }
                }
                assert forall|tn: int, td: int|
                    td > 0 && #[trigger] in_rat_strict(tn, td, nl_n as int, nl_d as int, nh_n as int, nh_d as int)
                        implies in_rat_strict(tn, td, lo_n as int, lo_d as int, hi_n as int, hi_d as int)
                            && axis_strict(o as int, mn as int, mx as int, d as int, tn, td) by {
                    if take_cl {
                        lemma_rat_lt_le_trans(lo_n as int, lo_d as int, cl_n as int, cl_d as int, tn, td);
                    } else {
                        assert(rat_le(cl_n as int, cl_d as int, lo_n as int, lo_d as int));
                        lemma_rat_le_lt_trans(cl_n as int, cl_d as int, lo_n as int, lo_d as int, tn, td);
                    }
                    if take_ch {
                        lemma_rat_le_lt_trans(tn, td, ch_n as int, ch_d as int, hi_n as int, hi_d as int);
                    } else {
                        assert(rat_le(hi_n as int, hi_d as int, ch_n as int, ch_d as int));
                        lemma_rat_lt_le_trans(tn, td, hi_n as int, hi_d as int, ch_n as int, ch_d as int);
                    }
                    if d > 0 {
                        assert((SCALE * (mn - o)) * td < tn * d && tn * d < (SCALE * (mx - o)) * td)
                            by (nonlinear_arith)
                            requires
                                cl_n == SCALE * (mn - o),
                                cl_d == d,
                                ch_n == SCALE * (mx - o),
                                ch_d == d,
                                cl_n * td < tn * cl_d,
                                tn * ch_d < ch_n * td,
                        ;
                    } else {
                        assert((SCALE * (mn - o)) * td < tn * d && tn * d < (SCALE * (mx - o)) * td)
                            by (nonlinear_arith)
                            requires
                                cl_n == -(SCALE * (mx - o)),
                                cl_d == -d,
                                ch_n == -(SCALE * (mn - o)),
                                ch_d == -d,
                                cl_n * td < tn * cl_d,
                                tn * ch_d < ch_n * td,
                        ;
                    }
                }
            }
            Some((nl_n, nl_d, nh_n, nh_d))
        } else {
            proof {
                assert forall|tn: int, td: int| td > 0
                    implies !(#[trigger] in_rat_strict(tn, td, lo_n as int, lo_d as int, hi_n as int, hi_d as int)
                        && axis_strict(o as int, mn as int, mx as int, d as int, tn, td)) by {
                    if in_rat_strict(tn, td, lo_n as int, lo_d as int, hi_n as int, hi_d as int)
                        && axis_strict(o as int, mn as int, mx as int, d as int, tn, td) {
                        assert(in_rat_strict(tn, td, nl_n as int, nl_d as int, nh_n as int, nh_d as int));
                        lemma_rat_lt_le_trans(nl_n as int, nl_d as int, tn, td, nh_n as int, nh_d as int);
                    }
                }
            }
            None
        }
    }
}

impl Aabb {
    /// The surrounding box of two boxes, at the specification level.
    pub open spec fn spec_surrounding(b0: Aabb, b1: Aabb) -> Aabb {
        Aabb {
            min: Vec3 {
                x: if b0.min.x <= b1.min.x { b0.min.x } else { b1.min.x },
                y: if b0.min.y <= b1.min.y { b0.min.y } else { b1.min.y },
                z: if b0.min.z <= b1.min.z { b0.min.z } else { b1.min.z },
            },
            max: Vec3 {
                x: if b0.max.x >= b1.max.x { b0.max.x } else { b1.max.x },
                y: if b0.max.y >= b1.max.y { b0.max.y } else { b1.max.y },
                z: if b0.max.z >= b1.max.z { b0.max.z } else { b1.max.z },
            },
        }
    }

    /// A degenerate box at the origin.
    pub fn default() -> (r: Self)
        ensures
            r.min == (Vec3 { x: 0, y: 0, z: 0 }),
            r.max == (Vec3 { x: 0, y: 0, z: 0 }),
    {
        Self::new(Vec3::new(0, 0, 0), Vec3::new(0, 0, 0))
    }

    /// A box from its two opposite corners.
    pub fn new(min: Vec3, max: Vec3) -> (r: Self)
        ensures
            r.min == min,
            r.max == max,
    {
        Self { min, max }
    }

    /// The tightest box containing both inputs: its lower corner is the
    /// componentwise minimum of the lower corners, its upper corner the
    /// componentwise maximum of the upper corners.
    pub fn surrounding_box(box0: &Aabb, box1: &Aabb) -> (r: Aabb)
        ensures
            r.min.x == if box0.min.x <= box1.min.x { box0.min.x } else { box1.min.x },
            r.min.y == if box0.min.y <= box1.min.y { box0.min.y } else { box1.min.y },
            r.min.z == if box0.min.z <= box1.min.z { box0.min.z } else { box1.min.z },
            r.max.x == if box0.max.x >= box1.max.x { box0.max.x } else { box1.max.x },
            r.max.y == if box0.max.y >= box1.max.y { box0.max.y } else { box1.max.y },
            r.max.z == if box0.max.z >= box1.max.z { box0.max.z } else { box1.max.z },
            aabb_contains(r, *box0),
            aabb_contains(r, *box1),
            r == Aabb::spec_surrounding(*box0, *box1),
    {
        let min = Vec3::new(
            if box0.min.x <= box1.min.x { box0.min.x } else { box1.min.x },
            if box0.min.y <= box1.min.y { box0.min.y } else { box1.min.y },
            if box0.min.z <= box1.min.z { box0.min.z } else { box1.min.z },
        );
        let max = Vec3::new(
            if box0.max.x >= box1.max.x { box0.max.x } else { box1.max.x },
            if box0.max.y >= box1.max.y { box0.max.y } else { box1.max.y },
            if box0.max.z >= box1.max.z { box0.max.z } else { box1.max.z },
        );
        Aabb { min, max }
    }

    /// The slab test: exactly whether some rational parameter strictly
    /// inside the window carries the ray strictly inside the box on all
    /// three axes — an exact touching of slab and window is a miss. A `true`
    /// answer also comes with a witness inside the closed window and box.
    pub fn hit(&self, ray: &Ray, t_min: i64, t_max: i64) -> (r: bool)
        requires
            aabb_wf(*self),
            crate::ray::ray_wf(*ray),
            -T_BOUND <= t_min <= T_BOUND,
            -T_BOUND <= t_max <= T_BOUND,
        ensures
            r == slab_sat_strict(*self, ray.orig, ray.dir, t_min as int, t_max as int),
            r ==> slab_sat(*self, ray.orig, ray.dir, t_min as int, t_max as int),
    {
        let o = ray.origin();
        let d = ray.direction();
        if !(t_min < t_max) {
            proof {
                assert forall|tn: int, td: int| td > 0
                    implies !window_strict(t_min as int, t_max as int, tn, td) by {
                    assert(!(t_min * td < tn && tn < t_max * td)) by (nonlinear_arith)
                        requires
                            td > 0,
                            t_min >= t_max,
                    ;
                }
            }
            return false;
        }
        let b1 = axis_clip(o.x, self.min.x, self.max.x, d.x, t_min as i128, 1, t_max as i128, 1);
        proof {
            assert forall|tn: int, td: int|
                td > 0 && #[trigger] window_strict(t_min as int, t_max as int, tn, td)
                    implies in_rat_strict(tn, td, t_min as int, 1, t_max as int, 1) by {
            }
            assert forall|tn: int, td: int|
                td > 0 && #[trigger] in_rat(tn, td, t_min as int, 1, t_max as int, 1)
                    implies window_ok(t_min as int, t_max as int, tn, td) by {
            }
        }
        let (l1n, l1d, h1n, h1d) = match b1 {
            None => {
                return false;
            },
            Some(nb) => nb,
        };
        let b2 = axis_clip(o.y, self.min.y, self.max.y, d.y, l1n, l1d, h1n, h1d);
        let (l2n, l2d, h2n, h2d) = match b2 {
            None => {
                return false;
            },
            Some(nb) => nb,
        };
        let b3 = axis_clip(o.z, self.min.z, self.max.z, d.z, l2n, l2d, h2n, h2d);
        let (l3n, l3d, h3n, h3d) = match b3 {
            None => {
                return false;
            },
            Some(nb) => nb,
        };
        proof {
            let fn_ = l3n as int;
            let fd_ = l3d as int;
            assert(rat_le(fn_, fd_, fn_, fd_));
            assert(rat_le(fn_, fd_, h3n as int, h3d as int));
            assert(in_rat(fn_, fd_, l3n as int, l3d as int, h3n as int, h3d as int));
            assert(in_rat(fn_, fd_, l2n as int, l2d as int, h2n as int, h2d as int)
                && axis_ok(o.z as int, self.min.z as int, self.max.z as int, d.z as int, fn_, fd_));
            assert(in_rat(fn_, fd_, l1n as int, l1d as int, h1n as int, h1d as int)
                && axis_ok(o.y as int, self.min.y as int, self.max.y as int, d.y as int, fn_, fd_));
            assert(in_rat(fn_, fd_, t_min as int, 1, t_max as int, 1)
                && axis_ok(o.x as int, self.min.x as int, self.max.x as int, d.x as int, fn_, fd_));
            assert(window_ok(t_min as int, t_max as int, fn_, fd_));
            assert(slab_sat(*self, ray.orig, ray.dir, t_min as int, t_max as int));
            let mid_n = l3n as int * h3d + h3n as int * l3d;
            let mid_d = 2 * (l3d as int) * (h3d as int);
            crate::num::lemma_rat_midpoint(l3n as int, l3d as int, h3n as int, h3d as int);
            assert(in_rat_strict(mid_n, mid_d, l3n as int, l3d as int, h3n as int, h3d as int));
            assert(in_rat_strict(mid_n, mid_d, l2n as int, l2d as int, h2n as int, h2d as int)
                && axis_strict(o.z as int, self.min.z as int, self.max.z as int, d.z as int,
                mid_n, mid_d));
            assert(in_rat_strict(mid_n, mid_d, l1n as int, l1d as int, h1n as int, h1d as int)
                && axis_strict(o.y as int, self.min.y as int, self.max.y as int, d.y as int,
                mid_n, mid_d));
            assert(in_rat_strict(mid_n, mid_d, t_min as int, 1, t_max as int, 1)
                && axis_strict(o.x as int, self.min.x as int, self.max.x as int, d.x as int,
                mid_n, mid_d));
            assert(window_strict(t_min as int, t_max as int, mid_n, mid_d));
            assert(slab_sat_strict(*self, ray.orig, ray.dir, t_min as int, t_max as int));
        }
        true
    }
}

/// A strict slab witness for a box carries over to any enclosing box.
pub proof fn lemma_slab_strict_monotone(inner: Aabb, outer: Aabb, orig: Vec3, dir: Vec3, tmin: int, tmax: int)
    requires
        aabb_contains(outer, inner),
        slab_sat_strict(inner, orig, dir, tmin, tmax),
    ensures
        slab_sat_strict(outer, orig, dir, tmin, tmax),
{
    let (tn, td) = choose|tn: int, td: int|
        td > 0 && #[trigger] window_strict(tmin, tmax, tn, td)
            && axis_strict(orig.x as int, inner.min.x as int, inner.max.x as int, dir.x as int, tn, td)
            && axis_strict(orig.y as int, inner.min.y as int, inner.max.y as int, dir.y as int, tn, td)
            && axis_strict(orig.z as int, inner.min.z as int, inner.max.z as int, dir.z as int, tn, td);
    lemma_axis_widen(orig.x as int, inner.min.x as int, inner.max.x as int, outer.min.x as int,
        outer.max.x as int, dir.x as int, tn, td);
    lemma_axis_widen(orig.y as int, inner.min.y as int, inner.max.y as int, outer.min.y as int,
        outer.max.y as int, dir.y as int, tn, td);
    lemma_axis_widen(orig.z as int, inner.min.z as int, inner.max.z as int, outer.min.z as int,
        outer.max.z as int, dir.z as int, tn, td);
}

/// Widening a slab keeps a strict witness strict.
proof fn lemma_axis_widen(o: int, mn: int, mx: int, wmn: int, wmx: int, d: int, tn: int, td: int)
    requires
        td > 0,
        wmn <= mn,
        mx <= wmx,
        axis_strict(o, mn, mx, d, tn, td),
    ensures
        axis_strict(o, wmn, wmx, d, tn, td),
{
    assert((SCALE * (wmn - o)) * td <= (SCALE * (mn - o)) * td
        && (SCALE * (mx - o)) * td <= (SCALE * (wmx - o)) * td) by (nonlinear_arith)
        requires
            td > 0,
            wmn <= mn,
            mx <= wmx,
            SCALE == 65536,
    ;
}

} // verus!
