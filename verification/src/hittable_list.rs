//! A flat collection of primitives: intersection by linear scan, keeping the
//! nearest hit, and an envelope box over all members.

use crate::aabb::Aabb;
use crate::hittable::{
    best_hit, hit_record_wf, lemma_prim_hit_wf, prim_time_ok, prim_wf, spec_prim_box,
    spec_prim_hit, HitRecord, Primitive,
};
use crate::num::T_BOUND;
use crate::ray::{ray_wf, Ray};
use vstd::prelude::*;

verus! {

/// Every primitive of the sequence is well formed.
pub open spec fn prims_wf(s: Seq<Primitive>) -> bool {
    forall|i: int| 0 <= i < s.len() ==> #[trigger] prim_wf(s[i])
}

/// Every primitive of the sequence can be evaluated at the given time.
pub open spec fn prims_time_ok(s: Seq<Primitive>, time: int) -> bool {
    forall|i: int| 0 <= i < s.len() ==> #[trigger] prim_time_ok(s[i], time)
}

/// The envelope of the primitives, folded left to right.
pub open spec fn spec_list_box(s: Seq<Primitive>, time0: int, time1: int) -> Aabb
    decreases s.len(),
{
    if s.len() <= 1 {
        spec_prim_box(s[0], time0, time1)
    } else {
        Aabb::spec_surrounding(
            spec_list_box(s.drop_last(), time0, time1),
            spec_prim_box(s.last(), time0, time1),
        )
    }
}

/// Defines a data structure that stores all the objects of a scene.
pub struct HittableList {
    pub objects: Vec<Primitive>,
}

impl HittableList {
    /// Creates an empty object list.
    pub fn default() -> (r: Self)
        ensures
            r.objects@ == Seq::<Primitive>::empty(),
    {
        Self { objects: Vec::new() }
    }

    /// Used to add a new object to the list.
    pub fn add(&mut self, object: Primitive)
        ensures
            final(self).objects@ == old(self).objects@.push(object),
    {
        self.objects.push(object);
    }

    /// Used to clear all the objects of the list.
    pub fn clear(&mut self)
        ensures
            final(self).objects@ == Seq::<Primitive>::empty(),
    {
        self.objects.clear();
    }

    /// The objects of the list.
    pub fn objects(&self) -> (r: &Vec<Primitive>)
        ensures
            r@ == self.objects@,
    {
        &self.objects
    }

    /// Intersects a ray against every object, returning the nearest hit: each
    /// hit narrows the window, so a later object only takes over when it is
    /// struck strictly nearer.
    pub fn hit(&self, ray: &Ray, t_min: i64, t_max: i64) -> (r: Option<HitRecord>)
        requires
            prims_wf(self.objects@),
            prims_time_ok(self.objects@, ray.time as int),
            ray_wf(*ray),
            -T_BOUND <= t_min <= T_BOUND,
            -T_BOUND <= t_max <= T_BOUND,
        ensures
            r == best_hit(self.objects@, *ray, t_min as int, t_max as int),
            r matches Some(h) ==> hit_record_wf(h) && t_min < h.t < t_max,
    {
        let ghost s = self.objects@;
        let mut hit_anything: Option<HitRecord> = None;
        let mut closest_so_far = t_max;
        let mut i: usize = 0;
        proof {
            assert(s.skip(0) =~= s);
        }
        while i < self.objects.len()
            invariant
                0 <= i <= s.len(),
                self.objects@ == s,
                prims_wf(s),
                prims_time_ok(s, ray.time as int),
                ray_wf(*ray),
                -T_BOUND <= t_min <= T_BOUND,
                -T_BOUND <= t_max <= T_BOUND,
                -T_BOUND <= closest_so_far <= T_BOUND,
                match hit_anything {
                    Some(h) => closest_so_far == h.t && hit_record_wf(h) && t_min < h.t < t_max,
                    None => closest_so_far == t_max,
                },
                best_hit(s, *ray, t_min as int, t_max as int) == match best_hit(
                    s.skip(i as int),
                    *ray,
                    t_min as int,
                    closest_so_far as int,
                ) {
                    Some(h) => Some(h),
                    None => hit_anything,
                },
            decreases s.len() - i,
        {
            let p = self.objects[i];
            let res = p.hit(ray, t_min, closest_so_far);
            proof {
                lemma_prim_hit_wf(s[i as int], *ray, t_min as int, closest_so_far as int);
                assert(s.skip(i as int)[0] == s[i as int]);
                assert(s.skip(i as int).skip(1) =~= s.skip(i as int + 1));
            }
            if let Some(rec) = res {
                closest_so_far = rec.t;
                hit_anything = Some(rec);
            }
            i = i + 1;
        }
        proof {
            assert(s.skip(s.len() as int) =~= Seq::<Primitive>::empty());
        }
        hit_anything
    }

    /// The envelope box of all objects, or nothing for an empty list.
    pub fn bounding_box(&self, time0: i64, time1: i64) -> (r: Option<Aabb>)
        requires
            prims_wf(self.objects@),
            prims_time_ok(self.objects@, time0 as int),
            prims_time_ok(self.objects@, time1 as int),
        ensures
            self.objects@.len() == 0 ==> r is None,
            self.objects@.len() > 0 ==> r == Some(
                spec_list_box(self.objects@, time0 as int, time1 as int),
            ),
    {
        let ghost s = self.objects@;
        if self.objects.len() == 0 {
            return None;
        }
        let first = self.objects[0];
        let mut output_box = match first.bounding_box(time0, time1) {
            Some(b) => b,
            None => {
                proof {
                    assert(false);
                }
                Aabb::default()
            },
        };
        let mut i: usize = 1;
        proof {
            assert(s.subrange(0, 1).drop_last() =~= s.subrange(0, 0));
            assert(s.subrange(0, 1).len() == 1 && s.subrange(0, 1)[0] == s[0]);
        }
        while i < self.objects.len()
            invariant
                1 <= i <= s.len(),
                self.objects@ == s,
                prims_wf(s),
                prims_time_ok(s, time0 as int),
                prims_time_ok(s, time1 as int),
                output_box == spec_list_box(s.subrange(0, i as int), time0 as int, time1 as int),
            decreases s.len() - i,
        {
            let p = self.objects[i];
            let temp_box = match p.bounding_box(time0, time1) {
                Some(b) => b,
                None => {
                    proof {
                        assert(false);
                    }
                    Aabb::default()
                },
            };
            output_box = Aabb::surrounding_box(&output_box, &temp_box);
            proof {
                assert(s.subrange(0, i as int + 1).drop_last() =~= s.subrange(0, i as int));
                assert(s.subrange(0, i as int + 1).last() == s[i as int]);
            }
            i = i + 1;
        }
        proof {
            assert(s.subrange(0, s.len() as int) =~= s);
        }
        Some(output_box)
    }
}

} // verus!
