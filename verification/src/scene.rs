//! The scene: primitives, point lights and the octree over them.

use vstd::prelude::*;
use crate::math::GEOM_MAX;
use crate::vec3::{Vec3, in_range};
use crate::ray::{Ray, ray_wf};
use crate::aabb::{lemma_pt_monotone, box_contains_box};
use crate::hit::HitRecord;
use crate::prim::{
    HittableObject, prim_wf, prim_qbox, prim_hit_t, prim_rec_ok, lemma_prim_hit_props,
    lemma_prim_hit_widen, lemma_prim_hit_narrow,
};
use crate::octree::{OcTree, tree_wf, in_tree, result_le};

verus! {

pub struct Hittables {
    pub lights: Vec<Vec3>,
    pub prims: Vec<HittableObject>,
    pub hittables: OcTree,
}

/// The scene invariant: primitives and lights are well-formed, the octree
/// is well-formed over the primitive array, every primitive is reachable,
/// and the root box contains every primitive box.
pub open spec fn hittables_wf(h: Hittables) -> bool {
    &&& forall|i: int| 0 <= i < h.prims@.len() ==> prim_wf(#[trigger] h.prims@[i])
    &&& forall|l: int| 0 <= l < h.lights@.len() ==> in_range(#[trigger] h.lights@[l], GEOM_MAX as int)
    &&& tree_wf(h.hittables, h.prims@)
    &&& forall|i: int| 0 <= i < h.prims@.len() ==> in_tree(h.hittables, i)
    &&& forall|i: int|
        0 <= i < h.prims@.len() ==> box_contains_box(
            h.hittables.bounding_box,
            prim_qbox(#[trigger] h.prims@[i]),
        )
}

/// Soundness of a nearest-hit result over the whole scene.
pub open spec fn scene_found_ok(
    prims: Seq<HittableObject>,
    r: Ray,
    a: int,
    b: int,
    res: Option<HitRecord>,
) -> bool {
    match res {
        Some(rec) => exists|i: int|
            0 <= i < prims.len() && #[trigger] prim_hit_t(prims[i], r, a, b) == Some(rec.t as int)
                && prim_rec_ok(prims[i], r, rec) && a < rec.t < b,
        None => true,
    }
}

/// Completeness: no primitive of the scene reports a closer hit.
pub open spec fn scene_beats(
    prims: Seq<HittableObject>,
    r: Ray,
    a: int,
    b: int,
    res: Option<HitRecord>,
) -> bool {
    forall|i: int|
        0 <= i < prims.len() && (#[trigger] prim_hit_t(prims[i], r, a, b)) is Some ==> result_le(
            res,
            prim_hit_t(prims[i], r, a, b)->Some_0,
        )
}

impl Hittables {
    /// Assemble a scene: keep the lights, own the primitives, build the
    /// octree over them.
    pub fn new(lights: Vec<Vec3>, objects: Vec<HittableObject>) -> (h: Hittables)
        requires
            forall|i: int| 0 <= i < objects@.len() ==> prim_wf(#[trigger] objects@[i]),
            forall|l: int| 0 <= l < lights@.len() ==> in_range(#[trigger] lights@[l], GEOM_MAX as int),
        ensures
            hittables_wf(h),
            h.prims@ == objects@,
            h.lights@ == lights@,
    {
        let tree = OcTree::new(&objects);
        Hittables { lights, prims: objects, hittables: tree }
    }

    /// Nearest hit over the whole scene, through the octree.  The result
    /// is exactly the closest hit any primitive reports in the window.
    pub fn hit(&self, ray: &Ray, t_min: i64, t_max: i64) -> (res: Option<HitRecord>)
        requires
            hittables_wf(*self),
            ray_wf(*ray),
        ensures
            scene_found_ok(self.prims@, *ray, t_min as int, t_max as int, res),
            scene_beats(self.prims@, *ray, t_min as int, t_max as int, res),
            res is Some ==> t_min < res->Some_0.t < t_max,
    {
        let ghost a = t_min as int;
        let ghost b = t_max as int;
        let res = self.hittables.hit(&self.prims, ray, t_min, t_max);
        proof {
            assert forall|i: int|
                0 <= i < self.prims@.len() && (#[trigger] prim_hit_t(self.prims@[i], *ray, a, b))
                    is Some implies result_le(
                res,
                prim_hit_t(self.prims@[i], *ray, a, b)->Some_0,
            ) by {
                let t = prim_hit_t(self.prims@[i], *ray, a, b)->Some_0;
                lemma_prim_hit_props(self.prims@[i], *ray, a, b, t);
                lemma_pt_monotone(
                    *ray,
                    t,
                    prim_qbox(self.prims@[i]),
                    self.hittables.bounding_box,
                );
                assert(in_tree(self.hittables, i));
            }
        }
        res
    }

    /// Nearest hit by plain iteration over every primitive; used to check
    /// the octree, and carries the same exact contract.
    pub fn brute_force_hit(&self, ray: &Ray, t_min: i64, t_max: i64) -> (res: Option<HitRecord>)
        requires
            hittables_wf(*self),
            ray_wf(*ray),
        ensures
            scene_found_ok(self.prims@, *ray, t_min as int, t_max as int, res),
            scene_beats(self.prims@, *ray, t_min as int, t_max as int, res),
            res is Some ==> t_min < res->Some_0.t < t_max,
    {
        let ghost a = t_min as int;
        let ghost b = t_max as int;
        let mut result: Option<HitRecord> = None;
        let mut closest: i64 = t_max;
        let mut i: usize = 0;
        while i < self.prims.len()
            invariant
                i <= self.prims@.len(),
                forall|j: int| 0 <= j < self.prims@.len() ==> prim_wf(#[trigger] self.prims@[j]),
                ray_wf(*ray),
                a == t_min as int,
                b == t_max as int,
                closest <= t_max,
                match result {
                    Some(rec) => closest == rec.t && t_min < rec.t < t_max,
                    None => closest == t_max,
                },
                scene_found_ok(self.prims@, *ray, a, b, result),
                forall|j: int|
                    0 <= j < i && (#[trigger] prim_hit_t(self.prims@[j], *ray, a, b))
                        is Some ==> result_le(result, prim_hit_t(self.prims@[j], *ray, a, b)->Some_0),
            decreases self.prims@.len() - i,
        {
            let ghost old_closest = closest;
            match self.prims[i].hit(ray, t_min, closest) {
                Some(r2) => {
                    proof {
                        lemma_prim_hit_widen(
                            self.prims@[i as int],
                            *ray,
                            a,
                            old_closest as int,
                            b,
                            r2.t as int,
                        );
                    }
                    result = Some(r2);
                    closest = r2.t;
                },
                None => {
                },
            }
            proof {
                assert forall|j: int|
                    0 <= j < i + 1 && (#[trigger] prim_hit_t(self.prims@[j], *ray, a, b))
                        is Some implies result_le(
                    result,
                    prim_hit_t(self.prims@[j], *ray, a, b)->Some_0,
                ) by {
                    let t2 = prim_hit_t(self.prims@[j], *ray, a, b)->Some_0;
                    lemma_prim_hit_props(self.prims@[j], *ray, a, b, t2);
                    if j < i {
                    } else {
                        if t2 < old_closest {
                            lemma_prim_hit_narrow(
                                self.prims@[j],
                                *ray,
                                a,
                                b,
                                old_closest as int,
                                t2,
                            );
                        }
                    }
                }
            }
            i += 1;
        }
        result
    }

    /// Whether anything at all blocks the window: true exactly when some
    /// primitive reports a hit.
    pub fn occluded(&self, ray: &Ray, t_min: i64, t_max: i64) -> (res: bool)
        requires
            hittables_wf(*self),
            ray_wf(*ray),
        ensures
            res == exists|i: int|
                0 <= i < self.prims@.len() && (#[trigger] prim_hit_t(
                    self.prims@[i],
                    *ray,
                    t_min as int,
                    t_max as int,
                )) is Some,
    {
        let r = self.hit(ray, t_min, t_max);
        proof {
            let a = t_min as int;
            let b = t_max as int;
            match r {
                Some(rec) => {
                    let i = choose|i: int|
                        0 <= i < self.prims@.len() && #[trigger] prim_hit_t(self.prims@[i], *ray, a, b)
                            == Some(rec.t as int) && prim_rec_ok(self.prims@[i], *ray, rec) && a
                            < rec.t < b;
                    assert(prim_hit_t(self.prims@[i], *ray, a, b) is Some);
                },
                None => {
                    if exists|i: int|
                        0 <= i < self.prims@.len() && (#[trigger] prim_hit_t(
                            self.prims@[i],
                            *ray,
                            a,
                            b,
                        )) is Some {
                        let i = choose|i: int|
                            0 <= i < self.prims@.len() && (#[trigger] prim_hit_t(
                                self.prims@[i],
                                *ray,
                                a,
                                b,
                            )) is Some;
                        assert(result_le(r, prim_hit_t(self.prims@[i], *ray, a, b)->Some_0));
                    }
                },
            }
        }
        r.is_some()
    }
}

/// Octree query equivalence: any two results that are sound and complete
/// for the same scene and window agree on whether there is a hit and on
/// its parameter.  With the contracts of `hit` and `brute_force_hit` this
/// says the octree returns a hit at exactly the brute-force minimum.
pub proof fn lemma_nearest_hit_unique(
    prims: Seq<HittableObject>,
    r: Ray,
    a: int,
    b: int,
    res1: Option<HitRecord>,
    res2: Option<HitRecord>,
)
    requires
        scene_found_ok(prims, r, a, b, res1),
        scene_beats(prims, r, a, b, res1),
        scene_found_ok(prims, r, a, b, res2),
        scene_beats(prims, r, a, b, res2),
    ensures
        res1 is Some <==> res2 is Some,
        res1 is Some ==> res1->Some_0.t == res2->Some_0.t,
{
    match res1 {
        Some(rec1) => {
            let i1 = choose|i: int|
                0 <= i < prims.len() && #[trigger] prim_hit_t(prims[i], r, a, b) == Some(
                    rec1.t as int,
                ) && prim_rec_ok(prims[i], r, rec1) && a < rec1.t < b;
            assert(result_le(res2, prim_hit_t(prims[i1], r, a, b)->Some_0));
            match res2 {
                Some(rec2) => {
                    let i2 = choose|i: int|
                        0 <= i < prims.len() && #[trigger] prim_hit_t(prims[i], r, a, b) == Some(
                            rec2.t as int,
                        ) && prim_rec_ok(prims[i], r, rec2) && a < rec2.t < b;
                    assert(result_le(res1, prim_hit_t(prims[i2], r, a, b)->Some_0));
                },
                None => {
                },
            }
        },
        None => {
            match res2 {
                Some(rec2) => {
                    let i2 = choose|i: int|
                        0 <= i < prims.len() && #[trigger] prim_hit_t(prims[i], r, a, b) == Some(
                            rec2.t as int,
                        ) && prim_rec_ok(prims[i], r, rec2) && a < rec2.t < b;
                    assert(result_le(res1, prim_hit_t(prims[i2], r, a, b)->Some_0));
                },
                None => {
                },
            }
        },
    }
}

} // verus!
