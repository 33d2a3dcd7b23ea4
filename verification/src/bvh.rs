//! The bounding-volume hierarchy: a binary tree over the primitives, built
//! once by recursive splitting along a randomly chosen axis, and traversed so
//! that the result is exactly the nearest hit a linear scan of its leaves
//! would find: a subtree is skipped only when its box proves that no hit can
//! lie inside the window, and the right child is searched in the window the
//! left child's hit leaves open.

use crate::aabb::{aabb_contains, aabb_wf, Aabb};
use crate::definitions::random_below;
use crate::hittable::{
    best_hit, lemma_best_hit_all_none, lemma_best_hit_append, lemma_best_hit_char,
    lemma_prim_hit_in_box, prim_time_ok, prim_wf, spec_prim_box, spec_prim_hit, HitRecord,
    Primitive,
};
use crate::hittable_list::{prims_time_ok, prims_wf, HittableList};
use crate::num::T_BOUND;
use crate::ray::{ray_wf, Ray};
use vstd::prelude::*;
use vstd::seq_lib::lemma_multiset_commutative;

verus! {

/// One side of a node: a primitive, or a subtree.
pub enum BvhChild {
    Object(Primitive),
    Node(Box<BvhNode>),
}

/// A node of the hierarchy: two children, the box that surrounds both, and
/// the time window the tree was built for.
pub struct BvhNode {
    pub left: BvhChild,
    pub right: BvhChild,
    pub bvh_box: Aabb,
    pub time0: i64,
    pub time1: i64,
}

/// The primitives below a child, in leaf order.
pub open spec fn child_prims(c: BvhChild) -> Seq<Primitive>
    decreases c,
{
    match c {
        BvhChild::Object(p) => seq![p],
        BvhChild::Node(n) => child_prims(n.left) + child_prims(n.right),
    }
}

/// The primitives below a node, in leaf order.
pub open spec fn node_prims(n: BvhNode) -> Seq<Primitive> {
    child_prims(n.left) + child_prims(n.right)
}

/// The box that bounds everything below a child.
pub open spec fn child_box(c: BvhChild, t0: int, t1: int) -> Aabb {
    match c {
        BvhChild::Object(p) => spec_prim_box(p, t0, t1),
        BvhChild::Node(n) => n.bvh_box,
    }
}

/// A child is well formed for the time window `[t0, t1]`.
pub open spec fn child_ok(c: BvhChild, t0: int, t1: int) -> bool
    decreases c,
{
    match c {
        BvhChild::Object(p) => prim_wf(p) && prim_time_ok(p, t0) && prim_time_ok(p, t1),
        BvhChild::Node(n) => node_wf(*n) && n.time0 == t0 && n.time1 == t1,
    }
}

/// A node is well formed: its children are, and its box is the surrounding
/// box of theirs.
pub open spec fn node_wf(n: BvhNode) -> bool
    decreases n,
{
    &&& -T_BOUND <= n.time0 <= n.time1 <= T_BOUND
    &&& child_ok(n.left, n.time0 as int, n.time1 as int)
    &&& child_ok(n.right, n.time0 as int, n.time1 as int)
    &&& n.bvh_box == Aabb::spec_surrounding(
        child_box(n.left, n.time0 as int, n.time1 as int),
        child_box(n.right, n.time0 as int, n.time1 as int),
    )
}

/// A well-formed child's box is well formed and contains the box of every
/// primitive below it, all of which are well formed for the window.
pub proof fn lemma_child_boxes(c: BvhChild, t0: int, t1: int)
    requires
        child_ok(c, t0, t1),
    ensures
        aabb_wf(child_box(c, t0, t1)),
        forall|i: int|
            0 <= i < child_prims(c).len() ==> {
                &&& prim_wf(#[trigger] child_prims(c)[i])
                &&& prim_time_ok(child_prims(c)[i], t0)
                &&& prim_time_ok(child_prims(c)[i], t1)
                &&& aabb_contains(child_box(c, t0, t1), spec_prim_box(child_prims(c)[i], t0, t1))
            },
    decreases c,
{
    match c {
        BvhChild::Object(p) => {
            crate::hittable::lemma_prim_box_wf(p, t0, t1);
            assert(child_prims(c)[0] == p);
        },
        BvhChild::Node(n) => {
            lemma_child_boxes(n.left, t0, t1);
            lemma_child_boxes(n.right, t0, t1);
            let pl = child_prims(n.left);
            let pr = child_prims(n.right);
            assert forall|i: int| 0 <= i < child_prims(c).len() implies {
                &&& prim_wf(#[trigger] child_prims(c)[i])
                &&& prim_time_ok(child_prims(c)[i], t0)
                &&& prim_time_ok(child_prims(c)[i], t1)
                &&& aabb_contains(child_box(c, t0, t1), spec_prim_box(child_prims(c)[i], t0, t1))
            } by {
                if i < pl.len() {
                    assert(child_prims(c)[i] == pl[i]);
                } else {
                    assert(child_prims(c)[i] == pr[i - pl.len()]);
                }
            }
        },
    }
}

impl BvhChild {
    /// Intersects the ray against everything below this child.
    fn hit(&self, ray: &Ray, t_min: i64, t_max: i64, Ghost(t0): Ghost<int>, Ghost(t1): Ghost<int>) -> (r:
        Option<HitRecord>)
        requires
            child_ok(*self, t0, t1),
            t0 <= ray.time <= t1,
            ray_wf(*ray),
            -T_BOUND <= t_min <= T_BOUND,
            -T_BOUND <= t_max <= T_BOUND,
        ensures
            r == best_hit(child_prims(*self), *ray, t_min as int, t_max as int),
        decreases *self,
    {
        match self {
            BvhChild::Object(p) => {
                let r = p.hit(ray, t_min, t_max);
                proof {
                    let s = child_prims(*self);
                    assert(s.len() == 1 && s[0] == *p);
                    assert(s.skip(1) =~= Seq::<Primitive>::empty());
                    match spec_prim_hit(*p, *ray, t_min as int, t_max as int) {
                        Some(h) => {
                            assert(best_hit(s.skip(1), *ray, t_min as int, h.t as int) is None);
                            assert(best_hit(s, *ray, t_min as int, t_max as int) == Some(h));
                        },
                        None => {
                            assert(best_hit(s.skip(1), *ray, t_min as int, t_max as int) is None);
                            assert(best_hit(s, *ray, t_min as int, t_max as int) is None);
                        },
                    }
                }
                r
            },
            BvhChild::Node(n) => n.hit(ray, t_min, t_max),
        }
    }
}

impl BvhNode {
    /// Intersects the ray against everything below this node: exactly the
    /// nearest hit a linear scan of the node's primitives would find. The
    /// node's box can only rule a subtree out when no hit lies inside the
    /// window; when the left child is struck, the right child is searched in
    /// the window that hit leaves open, so it takes over only when struck
    /// strictly nearer.
    pub fn hit(&self, ray: &Ray, t_min: i64, t_max: i64) -> (r: Option<HitRecord>)
        requires
            node_wf(*self),
            self.time0 <= ray.time <= self.time1,
            ray_wf(*ray),
            -T_BOUND <= t_min <= T_BOUND,
            -T_BOUND <= t_max <= T_BOUND,
        ensures
            r == best_hit(node_prims(*self), *ray, t_min as int, t_max as int),
        decreases *self,
    {
        let ghost t0 = self.time0 as int;
        let ghost t1 = self.time1 as int;
        let ghost pl = child_prims(self.left);
        let ghost pr = child_prims(self.right);
        proof {
            lemma_child_boxes(self.left, t0, t1);
            lemma_child_boxes(self.right, t0, t1);
        }
        if !self.bvh_box.hit(ray, t_min, t_max) {
            proof {
                let prims = node_prims(*self);
                assert forall|i: int|
                    0 <= i < prims.len() implies #[trigger] spec_prim_hit(prims[i], *ray,
                    t_min as int, t_max as int) is None by {
                    let p = prims[i];
                    let pbox = spec_prim_box(p, t0, t1);
                    if i < pl.len() {
                        assert(p == pl[i]);
                        assert(aabb_contains(child_box(self.left, t0, t1), pbox));
                        assert(aabb_contains(self.bvh_box, pbox));
                    } else {
                        assert(p == pr[i - pl.len()]);
                        assert(aabb_contains(child_box(self.right, t0, t1), pbox));
                        assert(aabb_contains(self.bvh_box, pbox));
                    }
                    if spec_prim_hit(p, *ray, t_min as int, t_max as int) is Some {
                        lemma_prim_time_between(p, t0, t1, ray.time as int);
                        lemma_prim_hit_in_box(p, *ray, t_min as int, t_max as int, t0, t1);
                        crate::aabb::lemma_slab_strict_monotone(pbox, self.bvh_box, ray.orig,
                            ray.dir, t_min as int, t_max as int);
                        assert(false);
                    }
                }
                lemma_best_hit_all_none(prims, *ray, t_min as int, t_max as int);
            }
            return None;
        }
        let hit_left = self.left.hit(ray, t_min, t_max, Ghost(t0), Ghost(t1));
        proof {
            lemma_best_hit_char(pl, *ray, t_min as int, t_max as int);
            lemma_best_hit_append(pl, pr, *ray, t_min as int, t_max as int);
        }
        let hit_right = match hit_left {
            Some(h) => self.right.hit(ray, t_min, h.t, Ghost(t0), Ghost(t1)),
            None => self.right.hit(ray, t_min, t_max, Ghost(t0), Ghost(t1)),
        };
        match hit_right {
            Some(h2) => Some(h2),
            None => hit_left,
        }
    }
}

impl BvhNode {
    /// The box surrounding everything below this node.
    pub fn bounding_box(&self, _time0: i64, _time1: i64) -> (r: Option<Aabb>)
        ensures
            r == Some(self.bvh_box),
    {
        Some(self.bvh_box)
    }
}

/// The nearest hit found through the hierarchy equals the nearest hit a
/// brute-force linear scan over the same primitives finds: `BvhNode::hit`
/// returns exactly the scan of the tree's leaves, and any scene holding the
/// same primitives — in any order — is struck under the same circumstances
/// and at the same parameter.
pub proof fn lemma_bvh_matches_scan(n: BvhNode, s: Seq<Primitive>, ray: Ray, tmin: int, tmax: int)
    requires
        node_prims(n).to_multiset() == s.to_multiset(),
        -T_BOUND <= tmin <= T_BOUND,
        -T_BOUND <= tmax <= T_BOUND,
    ensures
        best_hit(node_prims(n), ray, tmin, tmax) is Some <==> best_hit(s, ray, tmin, tmax)
            is Some,
        (best_hit(node_prims(n), ray, tmin, tmax) is Some && best_hit(s, ray, tmin, tmax)
            is Some) ==> best_hit(node_prims(n), ray, tmin, tmax).unwrap().t == best_hit(s, ray,
            tmin, tmax).unwrap().t,
{
    crate::hittable::lemma_best_hit_permutation(node_prims(n), s, ray, tmin, tmax);
}

/// A primitive valid at both ends of a window is valid throughout it.
proof fn lemma_prim_time_between(p: Primitive, t0: int, t1: int, time: int)
    requires
        prim_time_ok(p, t0),
        prim_time_ok(p, t1),
        t0 <= time <= t1,
    ensures
        prim_time_ok(p, time),
{
}

/// The bounding box of a primitive, which always exists in this library.
fn prim_box_exec(p: &Primitive, time0: i64, time1: i64) -> (r: Aabb)
    requires
        prim_wf(*p),
        prim_time_ok(*p, time0 as int),
        prim_time_ok(*p, time1 as int),
    ensures
        r == spec_prim_box(*p, time0 as int, time1 as int),
{
    match p.bounding_box(time0, time1) {
        Some(b) => b,
        None => {
            proof {
                assert(false);
            }
            Aabb::default()
        },
    }
}

/// The sort key of a primitive along an axis: the centroid of its bounding
/// box on that axis, doubled to stay an integer.
pub open spec fn spec_prim_key(p: Primitive, axis: int, time0: int, time1: int) -> int {
    let b = spec_prim_box(p, time0, time1);
    if axis == 0 {
        b.min.x + b.max.x
    } else if axis == 1 {
        b.min.y + b.max.y
    } else {
        b.min.z + b.max.z
    }
}

/// The sort key of a primitive along an axis.
fn prim_key(p: &Primitive, axis: u64, time0: i64, time1: i64) -> (r: i64)
    requires
        prim_wf(*p),
        prim_time_ok(*p, time0 as int),
        prim_time_ok(*p, time1 as int),
    ensures
        r == spec_prim_key(*p, axis as int, time0 as int, time1 as int),
{
    proof {
        crate::hittable::lemma_prim_box_wf(*p, time0 as int, time1 as int);
    }
    let b = prim_box_exec(p, time0, time1);
    if axis == 0 {
        b.min.x + b.max.x
    } else if axis == 1 {
        b.min.y + b.max.y
    } else {
        b.min.z + b.max.z
    }
}

/// Whether the two neighbours at `j - 1` and `j` sort the wrong way around
/// on the chosen axis.
fn keys_out_of_order(objects: &Vec<Primitive>, j: usize, axis: u64, time0: i64, time1: i64) -> (r:
    bool)
    requires
        1 <= j < objects@.len(),
        prims_wf(objects@),
        prims_time_ok(objects@, time0 as int),
        prims_time_ok(objects@, time1 as int),
    ensures
        r == (spec_prim_key(objects@[j - 1], axis as int, time0 as int, time1 as int)
            > spec_prim_key(objects@[j as int], axis as int, time0 as int, time1 as int)),
{
    let kl = prim_key(&objects[j - 1], axis, time0, time1);
    let kr = prim_key(&objects[j], axis, time0, time1);
    kl > kr
}

/// The primitives of `s` are ordered by their key along `axis`.
pub open spec fn sorted_by_key(s: Seq<Primitive>, axis: int, time0: int, time1: int) -> bool {
    forall|a: int, b: int|
        0 <= a < b < s.len() ==> spec_prim_key(#[trigger] s[a], axis, time0, time1)
            <= spec_prim_key(#[trigger] s[b], axis, time0, time1)
}

/// The node splits its primitives at the midpoint of an ordering by one of
/// the three axes: some sequence, sorted by its centroid key along that axis
/// and holding the node's primitives, has its first half below the left
/// child and the rest below the right child.
pub open spec fn node_split_ok(n: BvhNode, time0: int, time1: int) -> bool
    decreases n,
{
    let pl = child_prims(n.left);
    let pr = child_prims(n.right);
    &&& pl.len() == (pl.len() + pr.len()) / 2
    &&& exists|axis: int, s: Seq<Primitive>|
        0 <= axis < 3 && #[trigger] sorted_by_key(s, axis, time0, time1) && s.len() == pl.len()
            + pr.len() && s.subrange(0, pl.len() as int).to_multiset() == pl.to_multiset()
            && s.subrange(pl.len() as int, s.len() as int).to_multiset() == pr.to_multiset()
    &&& child_split_ok(n.left, time0, time1)
    &&& child_split_ok(n.right, time0, time1)
}

/// As `node_split_ok`, below a child.
pub open spec fn child_split_ok(c: BvhChild, time0: int, time1: int) -> bool
    decreases c,
{
    match c {
        BvhChild::Object(_) => true,
        BvhChild::Node(n) => node_split_ok(*n, time0, time1),
    }
}

/// A range sorted in place is a sorted sequence when read off as a subrange.
proof fn lemma_subrange_sorted(whole: Seq<Primitive>, start: int, end: int, axis: int, time0: int, time1: int)
    requires
        0 <= start <= end <= whole.len(),
        forall|a: int, b: int|
            start <= a < b < end ==> spec_prim_key(#[trigger] whole[a], axis, time0, time1)
                <= spec_prim_key(#[trigger] whole[b], axis, time0, time1),
    ensures
        sorted_by_key(whole.subrange(start, end), axis, time0, time1),
{
    let s = whole.subrange(start, end);
    assert forall|a: int, b: int| 0 <= a < b < s.len() implies spec_prim_key(#[trigger] s[a], axis,
        time0, time1) <= spec_prim_key(#[trigger] s[b], axis, time0, time1) by {
        assert(s[a] == whole[start + a] && s[b] == whole[start + b]);
    }
}

/// Exchanging two entries of a range leaves its multiset, and everything
/// outside the range, unchanged.
proof fn lemma_swap_in_range(s1: Seq<Primitive>, s2: Seq<Primitive>, start: int, end: int, j: int)
    requires
        0 <= start <= j - 1,
        j < end <= s1.len(),
        s2 == s1.update(j - 1, s1[j]).update(j, s1[j - 1]),
    ensures
        s2.len() == s1.len(),
        forall|k: int| 0 <= k < s1.len() && !(start <= k < end) ==> #[trigger] s2[k] == s1[k],
        s2.subrange(start, end).to_multiset() == s1.subrange(start, end).to_multiset(),
        forall|k: int| 0 <= k < s2.len() ==> #[trigger] s2[k] == s1[k] || s2[k] == s1[j] || s2[k]
            == s1[j - 1],
{
    broadcast use vstd::multiset::group_multiset_axioms;

    let sub1 = s1.subrange(start, end);
    let sub2 = s2.subrange(start, end);
    let mid = sub1.update(j - 1 - start, s1[j]);
    assert(sub2 =~= mid.update(j - start, s1[j - 1]));
    vstd::seq_lib::to_multiset_update(sub1, j - 1 - start, s1[j]);
    vstd::seq_lib::to_multiset_update(mid, j - start, s1[j - 1]);
    assert(mid[j - start] == sub1[j - start]);
    assert(sub1[j - start] == s1[j] && sub1[j - 1 - start] == s1[j - 1]);
    sub1.to_multiset_ensures();
    mid.to_multiset_ensures();
    assert(sub1.contains(s1[j - 1]));
    assert(sub1.contains(s1[j]));
    assert(sub1.to_multiset().count(s1[j - 1]) > 0);
    assert(sub1.to_multiset().count(s1[j]) > 0);
    assert(sub2.to_multiset() =~= sub1.to_multiset());
}

/// Sorts the range `[start, end)` of the objects by their key along the
/// axis, by exchanges: the range holds the same primitives afterwards and
/// nothing outside it moves.
fn sort_range(objects: &mut Vec<Primitive>, start: usize, end: usize, axis: u64, time0: i64, time1: i64)
    requires
        start <= end <= old(objects).len(),
        prims_wf(old(objects)@),
        prims_time_ok(old(objects)@, time0 as int),
        prims_time_ok(old(objects)@, time1 as int),
    ensures
        final(objects)@.len() == old(objects)@.len(),
        forall|k: int|
            0 <= k < old(objects)@.len() && !(start <= k < end) ==> #[trigger] final(objects)@[k]
                == old(objects)@[k],
        final(objects)@.subrange(start as int, end as int).to_multiset() == old(objects)@.subrange(
            start as int,
            end as int,
        ).to_multiset(),
        prims_wf(final(objects)@),
        prims_time_ok(final(objects)@, time0 as int),
        prims_time_ok(final(objects)@, time1 as int),
        forall|a: int, b: int|
            start <= a < b < end ==> spec_prim_key(#[trigger] final(objects)@[a], axis as int,
                time0 as int, time1 as int) <= spec_prim_key(#[trigger] final(objects)@[b],
                axis as int, time0 as int, time1 as int),
{
    let ghost orig = objects@;
    if start >= end {
        return ;
    }
    let mut i: usize = start + 1;
    while i < end
        invariant
            start < i <= end <= objects@.len(),
            objects@.len() == orig.len(),
            forall|k: int|
                0 <= k < orig.len() && !(start <= k < end) ==> #[trigger] objects@[k] == orig[k],
            objects@.subrange(start as int, end as int).to_multiset() == orig.subrange(
                start as int, end as int).to_multiset(),
            prims_wf(objects@),
            prims_time_ok(objects@, time0 as int),
            prims_time_ok(objects@, time1 as int),
            forall|a: int, b: int|
                start <= a < b < i ==> spec_prim_key(#[trigger] objects@[a], axis as int,
                    time0 as int, time1 as int) <= spec_prim_key(#[trigger] objects@[b],
                    axis as int, time0 as int, time1 as int),
        decreases end - i,
    {
        let mut j: usize = i;
        while j > start && keys_out_of_order(objects, j, axis, time0, time1)
            invariant
                start <= j <= i < end <= objects@.len(),
                objects@.len() == orig.len(),
                forall|k: int|
                    0 <= k < orig.len() && !(start <= k < end) ==> #[trigger] objects@[k]
                        == orig[k],
                objects@.subrange(start as int, end as int).to_multiset() == orig.subrange(
                    start as int, end as int).to_multiset(),
                prims_wf(objects@),
                prims_time_ok(objects@, time0 as int),
                prims_time_ok(objects@, time1 as int),
                forall|a: int, b: int|
                    start <= a < b <= i && b != j ==> spec_prim_key(#[trigger] objects@[a],
                        axis as int, time0 as int, time1 as int) <= spec_prim_key(
                        #[trigger] objects@[b], axis as int, time0 as int, time1 as int),
            decreases j,
        {
            let ghost before = objects@;
            let a = objects[j - 1];
            let b = objects[j];
            objects[j - 1] = b;
            objects[j] = a;
            proof {
                lemma_swap_in_range(before, objects@, start as int, end as int, j as int);
                assert forall|k: int| 0 <= k < objects@.len() implies prim_wf(
                    #[trigger] objects@[k]) && prim_time_ok(objects@[k], time0 as int)
                    && prim_time_ok(objects@[k], time1 as int) by {
                    assert(objects@[k] == before[k] || objects@[k] == before[j as int] || objects@[k]
                        == before[j - 1]);
                }
            }
            j = j - 1;
        }
        i = i + 1;
    }
}

/// Builds the subtree over the range `[start, end)`: the range is sorted by
/// a random axis, then split at its midpoint; a range of one is a leaf and a
/// range of two holds both primitives directly.
fn build_range(objects: &mut Vec<Primitive>, time0: i64, time1: i64, start: usize, end: usize) -> (r:
    BvhChild)
    requires
        0 <= start < end <= old(objects).len(),
        prims_wf(old(objects)@),
        prims_time_ok(old(objects)@, time0 as int),
        prims_time_ok(old(objects)@, time1 as int),
        -T_BOUND <= time0 <= time1 <= T_BOUND,
    ensures
        final(objects)@.len() == old(objects)@.len(),
        forall|k: int|
            0 <= k < old(objects)@.len() && !(start <= k < end) ==> #[trigger] final(objects)@[k]
                == old(objects)@[k],
        final(objects)@.subrange(start as int, end as int).to_multiset() == old(objects)@.subrange(
            start as int,
            end as int,
        ).to_multiset(),
        prims_wf(final(objects)@),
        prims_time_ok(final(objects)@, time0 as int),
        prims_time_ok(final(objects)@, time1 as int),
        child_ok(r, time0 as int, time1 as int),
        child_prims(r) == final(objects)@.subrange(start as int, end as int),
        child_split_ok(r, time0 as int, time1 as int),
    decreases end - start,
{
    broadcast use vstd::multiset::group_multiset_axioms;

    let ghost orig = objects@;
    let axis = random_below(3);
    sort_range(objects, start, end, axis, time0, time1);
    let ghost sorted = objects@;
    let object_span = end - start;
    if object_span == 1 {
        let p = objects[start];
        proof {
            assert(prim_wf(sorted[start as int]) && prim_time_ok(sorted[start as int],
                time0 as int) && prim_time_ok(sorted[start as int], time1 as int));
            assert(child_prims(BvhChild::Object(p)) =~= sorted.subrange(start as int, end as int));
            assert(child_ok(BvhChild::Object(p), time0 as int, time1 as int));
            assert(child_split_ok(BvhChild::Object(p), time0 as int, time1 as int));
        }
        BvhChild::Object(p)
    } else if object_span == 2 {
        let p0 = objects[start];
        let p1 = objects[start + 1];
        proof {
            assert(prim_wf(sorted[start as int]) && prim_time_ok(sorted[start as int],
                time0 as int) && prim_time_ok(sorted[start as int], time1 as int));
            assert(prim_wf(sorted[start as int + 1]) && prim_time_ok(sorted[start as int + 1],
                time0 as int) && prim_time_ok(sorted[start as int + 1], time1 as int));
        }
        let b0 = prim_box_exec(&p0, time0, time1);
        let b1 = prim_box_exec(&p1, time0, time1);
        let node = BvhNode {
            left: BvhChild::Object(p0),
            right: BvhChild::Object(p1),
            bvh_box: Aabb::surrounding_box(&b0, &b1),
            time0,
            time1,
        };
        proof {
            assert(child_prims(node.left) =~= seq![p0]);
            assert(child_prims(node.right) =~= seq![p1]);
            assert(seq![p0] + seq![p1] =~= sorted.subrange(start as int, end as int));
            assert(node_wf(node));
            assert(child_ok(BvhChild::Node(Box::new(node)), time0 as int, time1 as int));
            let ghost s = sorted.subrange(start as int, end as int);
            lemma_subrange_sorted(sorted, start as int, end as int, axis as int, time0 as int,
                time1 as int);
            assert(s.subrange(0, 1) =~= seq![p0]);
            assert(s.subrange(1, 2) =~= seq![p1]);
            let ghost ai = axis as int;
            assert(0 <= ai && ai < 3);
            assert(sorted_by_key(s, ai, time0 as int, time1 as int) && s.len() == 2);
            assert(s.subrange(0, 1).to_multiset() == seq![p0].to_multiset());
            assert(s.subrange(1, 2).to_multiset() == seq![p1].to_multiset());
            assert(node_split_ok(node, time0 as int, time1 as int));
        }
        BvhChild::Node(Box::new(node))
    } else {
        let mid = start + object_span / 2;
        let left = build_range(objects, time0, time1, start, mid);
        let ghost after_left = objects@;
        let right = build_range(objects, time0, time1, mid, end);
        let ghost after_right = objects@;
        let bl = child_box_exec(&left, time0, time1);
        let br = child_box_exec(&right, time0, time1);
        let node = BvhNode {
            left,
            right,
            bvh_box: Aabb::surrounding_box(&bl, &br),
            time0,
            time1,
        };
        proof {
            assert(after_left.subrange(mid as int, end as int) =~= sorted.subrange(mid as int,
                end as int));
            assert(after_right.subrange(start as int, mid as int) =~= after_left.subrange(
                start as int, mid as int));
            assert(after_right.subrange(start as int, end as int) =~= after_right.subrange(
                start as int, mid as int) + after_right.subrange(mid as int, end as int));
            assert(sorted.subrange(start as int, end as int) =~= sorted.subrange(start as int,
                mid as int) + sorted.subrange(mid as int, end as int));
            lemma_multiset_commutative(after_right.subrange(start as int, mid as int),
                after_right.subrange(mid as int, end as int));
            lemma_multiset_commutative(sorted.subrange(start as int, mid as int),
                sorted.subrange(mid as int, end as int));
            assert(child_prims(node.left) == after_right.subrange(start as int, mid as int));
            assert(node_prims(node) == child_prims(node.left) + child_prims(node.right));
            assert(forall|k: int|
                0 <= k < orig.len() && !(start <= k < end) ==> #[trigger] after_right[k]
                    == orig[k]);
            assert(node_wf(node));
            assert(child_ok(BvhChild::Node(Box::new(node)), time0 as int, time1 as int));
            let ghost s = sorted.subrange(start as int, end as int);
            let ghost pl = child_prims(node.left);
            let ghost pr = child_prims(node.right);
            lemma_subrange_sorted(sorted, start as int, end as int, axis as int, time0 as int,
                time1 as int);
            assert(s.subrange(0, pl.len() as int) =~= sorted.subrange(start as int, mid as int));
            assert(s.subrange(pl.len() as int, s.len() as int) =~= sorted.subrange(mid as int,
                end as int));
            assert(pl.to_multiset() == sorted.subrange(start as int, mid as int).to_multiset());
            assert(pr.to_multiset() == sorted.subrange(mid as int, end as int).to_multiset());
            let ghost ai = axis as int;
            assert(0 <= ai && ai < 3);
            assert(sorted_by_key(s, ai, time0 as int, time1 as int) && s.len() == pl.len()
                + pr.len());
            assert(s.subrange(0, pl.len() as int).to_multiset() == pl.to_multiset());
            assert(s.subrange(pl.len() as int, s.len() as int).to_multiset() == pr.to_multiset());
            assert(pl.len() == (pl.len() + pr.len()) / 2);
            assert(node_split_ok(node, time0 as int, time1 as int));
        }
        BvhChild::Node(Box::new(node))
    }
}

/// The box of a child, read off a leaf's primitive or a subtree's node.
fn child_box_exec(c: &BvhChild, time0: i64, time1: i64) -> (r: Aabb)
    requires
        child_ok(*c, time0 as int, time1 as int),
    ensures
        r == child_box(*c, time0 as int, time1 as int),
{
    match c {
        BvhChild::Object(p) => prim_box_exec(p, time0, time1),
        BvhChild::Node(n) => n.bvh_box,
    }
}

/// Every subtree holds at least one primitive.
proof fn lemma_child_prims_nonempty(c: BvhChild)
    ensures
        child_prims(c).len() >= 1,
    decreases c,
{
    match c {
        BvhChild::Object(_) => {
        },
        BvhChild::Node(n) => {
            lemma_child_prims_nonempty(n.left);
            lemma_child_prims_nonempty(n.right);
        },
    }
}

impl BvhNode {
    /// Builds the hierarchy over the whole list, for rays whose times lie in
    /// `[time0, time1]`. The list is reordered in place; it holds the same
    /// primitives afterwards, and the tree's leaves hold exactly the
    /// primitives of the list — a single primitive stands on both sides of
    /// the root when the list holds only one.
    pub fn new(list: &mut HittableList, time0: i64, time1: i64) -> (r: BvhNode)
        requires
            old(list).objects@.len() >= 1,
            prims_wf(old(list).objects@),
            prims_time_ok(old(list).objects@, time0 as int),
            prims_time_ok(old(list).objects@, time1 as int),
            -T_BOUND <= time0 <= time1 <= T_BOUND,
        ensures
            node_wf(r),
            r.time0 == time0,
            r.time1 == time1,
            final(list).objects@.len() == old(list).objects@.len(),
            final(list).objects@.to_multiset() == old(list).objects@.to_multiset(),
            prims_wf(final(list).objects@),
            old(list).objects@.len() >= 2 ==> node_prims(r) == final(list).objects@,
            old(list).objects@.len() == 1 ==> node_prims(r) == seq![
                final(list).objects@[0],
                final(list).objects@[0],
            ],
            node_split_ok(r, time0 as int, time1 as int),
    {
        let ghost orig = list.objects@;
        let len = list.objects.len();
        let c = build_range(&mut list.objects, time0, time1, 0, len);
        proof {
            assert(list.objects@.subrange(0, len as int) =~= list.objects@);
            assert(orig.subrange(0, len as int) =~= orig);
        }
        match c {
            BvhChild::Node(n) => {
                proof {
                    assert(node_prims(*n) == child_prims(BvhChild::Node(n)));
                    lemma_child_prims_nonempty(n.left);
                    lemma_child_prims_nonempty(n.right);
                    node_prims(*n).to_multiset_ensures();
                    list.objects@.to_multiset_ensures();
                    assert(node_prims(*n).to_multiset().len() == node_prims(*n).len());
                    assert(list.objects@.to_multiset().len() == list.objects@.len());
                }
                *n
            },
            BvhChild::Object(p) => {
                let b = prim_box_exec(&p, time0, time1);
                let node = BvhNode {
                    left: BvhChild::Object(p),
                    right: BvhChild::Object(p),
                    bvh_box: Aabb::surrounding_box(&b, &b),
                    time0,
                    time1,
                };
                proof {
                    assert(child_prims(c) == seq![p]);
                    seq![p].to_multiset_ensures();
                    list.objects@.to_multiset_ensures();
                    assert(seq![p].to_multiset().len() == 1);
                    assert(list.objects@.to_multiset().len() == list.objects@.len());
                    assert(list.objects@.len() == 1);
                    assert(list.objects@.subrange(0, 1) =~= list.objects@);
                    assert(seq![p].to_multiset() == list.objects@.to_multiset());
                    seq![p].to_multiset_ensures();
                    list.objects@.to_multiset_ensures();
                    assert(seq![p][0] == p && seq![p].contains(p));
                    assert(list.objects@.to_multiset().count(p) > 0);
                    assert(list.objects@.contains(p));
                    assert(list.objects@[0] == p);
                    assert(node_prims(node) =~= seq![p, p]);
                    let ghost s = seq![p, p];
                    assert(child_prims(node.left) =~= seq![p]);
                    assert(child_prims(node.right) =~= seq![p]);
                    assert(sorted_by_key(s, 0, time0 as int, time1 as int));
                    assert(s.subrange(0, 1) =~= seq![p]);
                    assert(s.subrange(1, 2) =~= seq![p]);
                    assert(0 <= 0int < 3 && sorted_by_key(s, 0, time0 as int, time1 as int)
                        && s.len() == 2 && s.subrange(0, 1).to_multiset() == child_prims(
                        node.left).to_multiset() && s.subrange(1, 2).to_multiset() == child_prims(
                        node.right).to_multiset());
                    assert(node_split_ok(node, time0 as int, time1 as int));
                }
                node
            },
        }
    }
}

} // verus!
