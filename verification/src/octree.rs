//! The octree spatial index: built once over primitive bounding boxes,
//! queried per ray for the nearest hit.
//!
//! The tree stores indices into the scene's primitive array.  Its
//! well-formedness carries everything the query proof needs: children
//! partition a node's box into the eight octants around the midpoint, and
//! a primitive reachable in a node is reachable in every child whose
//! octant its bounding box overlaps.

use vstd::prelude::*;
use crate::math::{sdiv, div_trunc};
use crate::vec3::Vec3;
use crate::ray::{Ray, ray_wf};
use crate::aabb::{
    AABB, pt_in_box, box_wf, box_contains_box, spec_overlaps, lemma_pt_implies_slab,
    lemma_common_point_overlaps, BOX_MAX,
};
use crate::hit::HitRecord;
use crate::prim::{
    HittableObject, prim_wf, prim_qbox, prim_hit_t, prim_rec_ok, lemma_prim_hit_props,
    lemma_prim_hit_widen, lemma_prim_hit_narrow,
};

verus! {

/// A leaf keeps at most this many primitives unless forced by the other caps.
pub const MAX_IN_OCTREE: usize = 20;

/// No node sits deeper than this.
pub const MAX_DEPTH: usize = 10;

pub struct OcTree {
    pub bounding_box: AABB,
    pub hittables: Vec<usize>,
    pub sub_boxes: Vec<OcTree>,
    pub is_leaf: bool,
}

/// Index `i` is stored in some leaf of this subtree.
pub open spec fn in_tree(n: OcTree, i: int) -> bool
    decreases n,
{
    if n.is_leaf {
        exists|k: int| 0 <= k < n.hittables@.len() && n.hittables@[k] as int == i
    } else {
        exists|c: int| 0 <= c < n.sub_boxes@.len() && in_tree(n.sub_boxes@[c], i)
    }
}

/// The midpoint used to split a box, per axis (truncated mean).
pub open spec fn mid_of(a: int, b: int) -> int {
    sdiv(a + b, 2)
}

/// Octant `c` of a box: bit 0 picks the x half, bit 1 the y half, bit 2 the
/// z half.
pub open spec fn octant(b: AABB, c: int) -> AABB {
    let mx = mid_of(b.min.x as int, b.max.x as int);
    let my = mid_of(b.min.y as int, b.max.y as int);
    let mz = mid_of(b.min.z as int, b.max.z as int);
    AABB {
        min: Vec3 {
            x: if c % 2 == 0 {
                b.min.x
            } else {
                mx as i64
            },
            y: if (c / 2) % 2 == 0 {
                b.min.y
            } else {
                my as i64
            },
            z: if (c / 4) % 2 == 0 {
                b.min.z
            } else {
                mz as i64
            },
        },
        max: Vec3 {
            x: if c % 2 == 0 {
                mx as i64
            } else {
                b.max.x
            },
            y: if (c / 2) % 2 == 0 {
                my as i64
            } else {
                b.max.y
            },
            z: if (c / 4) % 2 == 0 {
                mz as i64
            } else {
                b.max.z
            },
        },
    }
}

/// The midpoint stays between the bounds.
pub proof fn lemma_mid_between(a: int, b: int)
    requires
        a <= b,
        -0x10000000 <= a,
        b <= 0x10000000,
    ensures
        a <= mid_of(a, b) <= b,
{
    if a + b >= 0 {
        crate::math::lemma_sdiv_between(a + b, 2, 0, b);
        if a >= 0 {
            crate::math::lemma_sdiv_between(a + b, 2, a, b);
        } else {
            vstd::arithmetic::div_mod::lemma_div_pos_is_pos(a + b, 2);
        }
    } else {
        crate::math::lemma_sdiv_between(a + b, 2, a, 0);
        if b <= 0 {
            crate::math::lemma_sdiv_between(a + b, 2, a, b);
        } else {
            vstd::arithmetic::div_mod::lemma_div_pos_is_pos(-(a + b), 2);
        }
    }
    assert(2 * mid_of(a, b) == a + b || 2 * mid_of(a, b) == a + b - 1 || 2 * mid_of(a, b) == a + b
        + 1) by {
        vstd::arithmetic::div_mod::lemma_fundamental_div_mod(a + b, 2);
        vstd::arithmetic::div_mod::lemma_fundamental_div_mod(-(a + b), 2);
    }
}

/// Octants are well-formed sub-boxes of their parent.
pub proof fn lemma_octant_shape(b: AABB, c: int)
    requires
        box_wf(b),
        0 <= c < 8,
    ensures
        box_wf(octant(b, c)),
        box_contains_box(b, octant(b, c)),
{
    lemma_mid_between(b.min.x as int, b.max.x as int);
    lemma_mid_between(b.min.y as int, b.max.y as int);
    lemma_mid_between(b.min.z as int, b.max.z as int);
}

/// Any exact ray point in a box lies in one of its eight octants.
pub proof fn lemma_octant_cover(b: AABB, r: Ray, t: int)
    requires
        box_wf(b),
        pt_in_box(r, t, b),
    ensures
        exists|c: int| 0 <= c < 8 && pt_in_box(r, t, #[trigger] octant(b, c)),
{
    lemma_mid_between(b.min.x as int, b.max.x as int);
    lemma_mid_between(b.min.y as int, b.max.y as int);
    lemma_mid_between(b.min.z as int, b.max.z as int);
    let mx = mid_of(b.min.x as int, b.max.x as int);
    let my = mid_of(b.min.y as int, b.max.y as int);
    let mz = mid_of(b.min.z as int, b.max.z as int);
    let bx: int = if r.direction.x * t <= (mx - r.origin.x) * crate::math::SCALE {
        0
    } else {
        1
    };
    let by: int = if r.direction.y * t <= (my - r.origin.y) * crate::math::SCALE {
        0
    } else {
        1
    };
    let bz: int = if r.direction.z * t <= (mz - r.origin.z) * crate::math::SCALE {
        0
    } else {
        1
    };
    let c = bx + 2 * by + 4 * bz;
    assert(c % 2 == bx && (c / 2) % 2 == by && (c / 4) % 2 == bz) by {
        assert(0 <= bx <= 1 && 0 <= by <= 1 && 0 <= bz <= 1);
    }
    assert(pt_in_box(r, t, octant(b, c)));
}

/// Structural well-formedness of a subtree against the primitive array.
pub open spec fn tree_wf(n: OcTree, prims: Seq<HittableObject>) -> bool
    decreases n,
{
    &&& box_wf(n.bounding_box)
    &&& if n.is_leaf {
        forall|k: int| 0 <= k < n.hittables@.len() ==> (#[trigger] n.hittables@[k]) < prims.len()
    } else {
        &&& n.sub_boxes@.len() == 8
        &&& forall|c: int|
            0 <= c < 8 ==> (#[trigger] n.sub_boxes@[c]).bounding_box == octant(n.bounding_box, c)
        &&& forall|c: int| 0 <= c < 8 ==> tree_wf(#[trigger] n.sub_boxes@[c], prims)
        &&& forall|c: int, i: int|
            0 <= c < 8 && #[trigger] in_tree(n, i) && spec_overlaps(
                prim_qbox(prims[i]),
                (#[trigger] n.sub_boxes@[c]).bounding_box,
            ) ==> in_tree(n.sub_boxes@[c], i)
    }
}

/// A primitive box overlapping a node's box overlaps one of its octants.
pub proof fn lemma_box_octant_cover(parent: AABB, pb: AABB)
    requires
        box_wf(parent),
        pb.min.x <= pb.max.x,
        pb.min.y <= pb.max.y,
        pb.min.z <= pb.max.z,
        spec_overlaps(pb, parent),
    ensures
        exists|c: int| 0 <= c < 8 && spec_overlaps(pb, #[trigger] octant(parent, c)),
{
    lemma_mid_between(parent.min.x as int, parent.max.x as int);
    lemma_mid_between(parent.min.y as int, parent.max.y as int);
    lemma_mid_between(parent.min.z as int, parent.max.z as int);
    let mx = mid_of(parent.min.x as int, parent.max.x as int);
    let my = mid_of(parent.min.y as int, parent.max.y as int);
    let mz = mid_of(parent.min.z as int, parent.max.z as int);
    let wx = if pb.min.x >= parent.min.x {
        pb.min.x as int
    } else {
        parent.min.x as int
    };
    let wy = if pb.min.y >= parent.min.y {
        pb.min.y as int
    } else {
        parent.min.y as int
    };
    let wz = if pb.min.z >= parent.min.z {
        pb.min.z as int
    } else {
        parent.min.z as int
    };
    let bx: int = if wx <= mx {
        0
    } else {
        1
    };
    let by: int = if wy <= my {
        0
    } else {
        1
    };
    let bz: int = if wz <= mz {
        0
    } else {
        1
    };
    let c = bx + 2 * by + 4 * bz;
    assert(c % 2 == bx && (c / 2) % 2 == by && (c / 4) % 2 == bz) by {
        assert(0 <= bx <= 1 && 0 <= by <= 1 && 0 <= bz <= 1);
    }
    assert(spec_overlaps(pb, octant(parent, c)));
}

/// `res.t <= t` when a result is present; no result never beats a hit.
pub open spec fn result_le(res: Option<HitRecord>, t: int) -> bool {
    match res {
        Some(rec) => rec.t <= t,
        None => false,
    }
}

/// Soundness of a query result: it reports a real hit of some primitive
/// stored in the subtree, over the full query window.
pub open spec fn found_ok(
    n: OcTree,
    prims: Seq<HittableObject>,
    r: Ray,
    a: int,
    b: int,
    res: Option<HitRecord>,
) -> bool {
    match res {
        Some(rec) => exists|i: int|
            0 <= i < prims.len() && #[trigger] in_tree(n, i) && prim_hit_t(prims[i], r, a, b)
                == Some(rec.t as int) && prim_rec_ok(prims[i], r, rec) && a < rec.t < b,
        None => true,
    }
}

/// Completeness of a query result: no primitive in the subtree whose hit
/// point lies in the node's box beats it.
pub open spec fn node_beats(
    n: OcTree,
    prims: Seq<HittableObject>,
    r: Ray,
    a: int,
    b: int,
    res: Option<HitRecord>,
) -> bool {
    forall|i: int|
        #![trigger in_tree(n, i)]
        0 <= i < prims.len() && in_tree(n, i) && prim_hit_t(prims[i], r, a, b) is Some && pt_in_box(
            r,
            prim_hit_t(prims[i], r, a, b)->Some_0,
            n.bounding_box,
        ) ==> result_le(res, prim_hit_t(prims[i], r, a, b)->Some_0)
}

/// Collect the indices whose primitive box overlaps the given box.
fn filter_overlapping(prims: &Vec<HittableObject>, objs: &Vec<usize>, bb: &AABB) -> (res: Vec<
    usize,
>)
    requires
        forall|i: int| 0 <= i < prims@.len() ==> prim_wf(#[trigger] prims@[i]),
        forall|k: int| 0 <= k < objs@.len() ==> (#[trigger] objs@[k]) < prims@.len(),
    ensures
        forall|k: int| 0 <= k < res@.len() ==> (#[trigger] res@[k]) < prims@.len(),
        forall|k: int| 0 <= k < res@.len() ==> objs@.contains(#[trigger] res@[k]),
        forall|k: int|
            0 <= k < objs@.len() && spec_overlaps(
                prim_qbox(prims@[objs@[k] as int]),
                *bb,
            ) ==> res@.contains(#[trigger] objs@[k]),
{
    let mut res: Vec<usize> = Vec::new();
    let mut j: usize = 0;
    while j < objs.len()
        invariant
            j <= objs@.len(),
            forall|i: int| 0 <= i < prims@.len() ==> prim_wf(#[trigger] prims@[i]),
            forall|k: int| 0 <= k < objs@.len() ==> (#[trigger] objs@[k]) < prims@.len(),
            forall|k: int| 0 <= k < res@.len() ==> (#[trigger] res@[k]) < prims@.len(),
            forall|k: int| 0 <= k < res@.len() ==> objs@.contains(#[trigger] res@[k]),
            forall|k: int|
                0 <= k < j && spec_overlaps(prim_qbox(prims@[objs@[k] as int]), *bb)
                    ==> res@.contains(#[trigger] objs@[k]),
        decreases objs@.len() - j,
    {
        let idx = objs[j];
        let pb = prims[idx].query_box();
        if pb.overlaps(bb) {
            let ghost old_res = res@;
            res.push(idx);
            proof {
                assert(res@[res@.len() - 1] == idx);
                assert forall|k: int|
                    0 <= k < res@.len() implies objs@.contains(#[trigger] res@[k]) by {
                    if k < res@.len() - 1 {
                        assert(res@[k] == old_res[k]);
                    } else {
                        assert(objs@[j as int] == idx);
                    }
                }
                assert forall|k: int|
                    0 <= k < j + 1 && spec_overlaps(
                        prim_qbox(prims@[objs@[k] as int]),
                        *bb,
                    ) implies res@.contains(#[trigger] objs@[k]) by {
                    if k < j {
                        let k2 = choose|k2: int| 0 <= k2 < old_res.len() && old_res[k2] == objs@[k];
                        assert(res@[k2] == objs@[k]);
                    } else {
                        assert(res@[res@.len() - 1] == objs@[k]);
                    }
                }
            }
        }
        j += 1;
    }
    res
}

impl OcTree {
    /// Build a subtree over the given candidate indices inside `bbox`.
    /// Splitting stops at the leaf-size, extent, and depth caps.
    fn internal_new(
        prims: &Vec<HittableObject>,
        bbox: AABB,
        objs: Vec<usize>,
        depth: usize,
    ) -> (res: OcTree)
        requires
            box_wf(bbox),
            depth <= MAX_DEPTH,
            forall|i: int| 0 <= i < prims@.len() ==> prim_wf(#[trigger] prims@[i]),
            forall|k: int| 0 <= k < objs@.len() ==> (#[trigger] objs@[k]) < prims@.len(),
        ensures
            res.bounding_box == bbox,
            tree_wf(res, prims@),
            forall|k: int|
                0 <= k < objs@.len() && spec_overlaps(
                    prim_qbox(prims@[objs@[k] as int]),
                    bbox,
                ) ==> in_tree(res, #[trigger] objs@[k] as int),
            forall|i: int| #[trigger] in_tree(res, i) ==> objs@.contains(i as usize) && 0 <= i < prims@.len(),
        decreases MAX_DEPTH - depth,
    {
        let n_prims: usize = prims.len();
        let ex = bbox.max.x - bbox.min.x > crate::math::SCALE;
        let ey = bbox.max.y - bbox.min.y > crate::math::SCALE;
        let ez = bbox.max.z - bbox.min.z > crate::math::SCALE;
        if objs.len() > MAX_IN_OCTREE && (ex || ey || ez) && depth < MAX_DEPTH {
            let mut kids: Vec<OcTree> = Vec::new();
            let mut c: usize = 0;
            while c < 8
                invariant
                    c <= 8,
                    kids@.len() == c,
                    box_wf(bbox),
                    depth < MAX_DEPTH,
                    forall|i: int| 0 <= i < prims@.len() ==> prim_wf(#[trigger] prims@[i]),
                    forall|k: int| 0 <= k < objs@.len() ==> (#[trigger] objs@[k]) < prims@.len(),
                    forall|c2: int|
                        0 <= c2 < c ==> (#[trigger] kids@[c2]).bounding_box == octant(bbox, c2),
                    forall|c2: int| 0 <= c2 < c ==> tree_wf(#[trigger] kids@[c2], prims@),
                    forall|c2: int, i: int|
                        0 <= c2 < c && #[trigger] in_tree(kids@[c2], i) ==> objs@.contains(
                            i as usize,
                        ) && 0 <= i < prims@.len(),
                    forall|c2: int, k: int|
                        0 <= c2 < c && 0 <= k < objs@.len() && spec_overlaps(
                            prim_qbox(prims@[objs@[k] as int]),
                            (#[trigger] kids@[c2]).bounding_box,
                        ) ==> in_tree(kids@[c2], #[trigger] objs@[k] as int),
                decreases 8 - c,
            {
                let cb = octant_box(&bbox, c);
                let kid_objs = filter_overlapping(prims, &objs, &cb);
                proof {
                    lemma_octant_shape(bbox, c as int);
                }
                let kid = OcTree::internal_new(prims, cb, kid_objs, depth + 1);
                let ghost old_kids = kids@;
                let ghost gkid_objs = kid_objs@;
                kids.push(kid);
                proof {
                    assert(kids@[c as int] == kid);
                    assert forall|c2: int, i: int|
                        0 <= c2 < c + 1 && #[trigger] in_tree(kids@[c2], i) implies objs@.contains(
                        i as usize,
                    ) && 0 <= i < prims@.len() by {
                        if c2 < c {
                            assert(kids@[c2] == old_kids[c2]);
                        } else {
                            assert(kids@[c2] == kid);
                            let k2 = choose|k2: int|
                                0 <= k2 < gkid_objs.len() && gkid_objs[k2] == i as usize;
                            assert(objs@.contains(gkid_objs[k2]));
                        }
                    }
                    assert forall|c2: int, k: int|
                        0 <= c2 < c + 1 && 0 <= k < objs@.len() && spec_overlaps(
                            prim_qbox(prims@[objs@[k] as int]),
                            (#[trigger] kids@[c2]).bounding_box,
                        ) implies in_tree(kids@[c2], #[trigger] objs@[k] as int) by {
                        if c2 < c {
                            assert(kids@[c2] == old_kids[c2]);
                        } else {
                            assert(kids@[c2] == kid);
                            assert(gkid_objs.contains(objs@[k]));
                            let k2 = choose|k2: int|
                                0 <= k2 < gkid_objs.len() && gkid_objs[k2] == objs@[k];
                            assert(in_tree(kid, gkid_objs[k2] as int));
                        }
                    }
                }
                c += 1;
            }
            let node = OcTree { bounding_box: bbox, hittables: Vec::new(), sub_boxes: kids, is_leaf: false };
            proof {
                assert forall|i: int| #[trigger]
                    in_tree(node, i) implies objs@.contains(i as usize) && 0 <= i < prims@.len() by {
                    let c2 = choose|c2: int|
                        0 <= c2 < node.sub_boxes@.len() && in_tree(node.sub_boxes@[c2], i);
                    assert(in_tree(node.sub_boxes@[c2], i));
                }
                assert forall|c2: int, i: int|
                    0 <= c2 < 8 && #[trigger] in_tree(node, i) && spec_overlaps(
                        prim_qbox(prims@[i]),
                        (#[trigger] node.sub_boxes@[c2]).bounding_box,
                    ) implies in_tree(node.sub_boxes@[c2], i) by {
                    assert(objs@.contains(i as usize));
                    assert(i <= usize::MAX);
                    let k = choose|k: int| 0 <= k < objs@.len() && objs@[k] == i as usize;
                    assert(objs@[k] as int == i);
                }
                assert(tree_wf(node, prims@));
                assert forall|k: int|
                    0 <= k < objs@.len() && spec_overlaps(
                        prim_qbox(prims@[objs@[k] as int]),
                        bbox,
                    ) implies in_tree(node, #[trigger] objs@[k] as int) by {
                    let pb = prim_qbox(prims@[objs@[k] as int]);
                    lemma_prim_qbox_wf(prims@[objs@[k] as int]);
                    lemma_box_octant_cover(bbox, pb);
                    let c2 = choose|c2: int|
                        0 <= c2 < 8 && spec_overlaps(pb, #[trigger] octant(bbox, c2));
                    assert(node.sub_boxes@[c2].bounding_box == octant(bbox, c2));
                    assert(in_tree(node.sub_boxes@[c2], objs@[k] as int));
                }
            }
            node
        } else {
            let node = OcTree { bounding_box: bbox, hittables: objs, sub_boxes: Vec::new(), is_leaf: true };
            proof {
                assert forall|k: int|
                    0 <= k < node.hittables@.len() && spec_overlaps(
                        prim_qbox(prims@[node.hittables@[k] as int]),
                        bbox,
                    ) implies in_tree(node, #[trigger] node.hittables@[k] as int) by {
                    assert(node.hittables@[k] as int == node.hittables@[k] as int);
                }
            }
            node
        }
    }
}

impl OcTree {
    /// Build the octree over all primitives: the root box is the extent of
    /// every primitive box, inflated by the bias on both sides.
    pub fn new(objs: &Vec<HittableObject>) -> (t: OcTree)
        requires
            forall|i: int| 0 <= i < objs@.len() ==> prim_wf(#[trigger] objs@[i]),
        ensures
            tree_wf(t, objs@),
            forall|i: int| 0 <= i < objs@.len() ==> in_tree(t, i),
            forall|i: int|
                0 <= i < objs@.len() ==> box_contains_box(
                    t.bounding_box,
                    prim_qbox(#[trigger] objs@[i]),
                ),
            forall|i: int| #[trigger] in_tree(t, i) ==> 0 <= i < objs@.len(),
    {
        let eps = crate::math::EPS_FX;
        let mut mn = Vec3 { x: -crate::math::SCALE, y: -crate::math::SCALE, z: -crate::math::SCALE };
        let mut mx = Vec3 { x: crate::math::SCALE, y: crate::math::SCALE, z: crate::math::SCALE };
        if objs.len() > 0 {
            let bb0 = objs[0].query_box();
            proof {
                lemma_prim_qbox_wf(objs@[0]);
            }
            mn = bb0.min;
            mx = bb0.max;
        }
        let mut j: usize = 1;
        if objs.len() == 0 {
            j = 0;
        }
        while j < objs.len()
            invariant
                forall|i: int| 0 <= i < objs@.len() ==> prim_wf(#[trigger] objs@[i]),
                crate::vec3::in_range(mn, 0x8000100),
                crate::vec3::in_range(mx, 0x8000100),
                mn.x <= mx.x,
                mn.y <= mx.y,
                mn.z <= mx.z,
                forall|i: int|
                    0 <= i < j && i < objs@.len() ==> {
                        let pb = prim_qbox(#[trigger] objs@[i]);
                        mn.x <= pb.min.x && mn.y <= pb.min.y && mn.z <= pb.min.z && pb.max.x
                            <= mx.x && pb.max.y <= mx.y && pb.max.z <= mx.z
                    },
            decreases objs@.len() - j,
        {
            let bb = objs[j].query_box();
            proof {
                lemma_prim_qbox_wf(objs@[j as int]);
            }
            if bb.min.x < mn.x {
                mn.x = bb.min.x;
            }
            if bb.min.y < mn.y {
                mn.y = bb.min.y;
            }
            if bb.min.z < mn.z {
                mn.z = bb.min.z;
            }
            if bb.max.x > mx.x {
                mx.x = bb.max.x;
            }
            if bb.max.y > mx.y {
                mx.y = bb.max.y;
            }
            if bb.max.z > mx.z {
                mx.z = bb.max.z;
            }
            j += 1;
        }
        let root_box = AABB {
            min: Vec3 { x: mn.x - eps, y: mn.y - eps, z: mn.z - eps },
            max: Vec3 { x: mx.x + eps, y: mx.y + eps, z: mx.z + eps },
        };
        let mut idxs: Vec<usize> = Vec::new();
        let mut k: usize = 0;
        while k < objs.len()
            invariant
                k <= objs@.len(),
                idxs@.len() == k,
                forall|k2: int| 0 <= k2 < k ==> #[trigger] idxs@[k2] == k2,
            decreases objs@.len() - k,
        {
            idxs.push(k);
            k += 1;
        }
        let t = OcTree::internal_new(objs, root_box, idxs, 0);
        proof {
            assert forall|i: int| 0 <= i < objs@.len() implies in_tree(t, i) by {
                lemma_prim_qbox_wf(objs@[i]);
                assert(idxs@[i] == i as usize);
                assert(spec_overlaps(prim_qbox(objs@[i]), root_box));
                assert(in_tree(t, idxs@[i] as int));
            }
        }
        t
    }
}

/// Octant `c` of a box, executably.
fn octant_box(b: &AABB, c: usize) -> (res: AABB)
    requires
        box_wf(*b),
        c < 8,
    ensures
        res == octant(*b, c as int),
{
    let mx = mid_i64(b.min.x, b.max.x);
    let my = mid_i64(b.min.y, b.max.y);
    let mz = mid_i64(b.min.z, b.max.z);
    proof {
        lemma_mid_between(b.min.x as int, b.max.x as int);
        lemma_mid_between(b.min.y as int, b.max.y as int);
        lemma_mid_between(b.min.z as int, b.max.z as int);
    }
    AABB {
        min: Vec3 {
            x: if c % 2 == 0 {
                b.min.x
            } else {
                mx
            },
            y: if (c / 2) % 2 == 0 {
                b.min.y
            } else {
                my
            },
            z: if (c / 4) % 2 == 0 {
                b.min.z
            } else {
                mz
            },
        },
        max: Vec3 {
            x: if c % 2 == 0 {
                mx
            } else {
                b.max.x
            },
            y: if (c / 2) % 2 == 0 {
                my
            } else {
                b.max.y
            },
            z: if (c / 4) % 2 == 0 {
                mz
            } else {
                b.max.z
            },
        },
    }
}

/// The truncated mean of two bounded values.
fn mid_i64(a: i64, b: i64) -> (m: i64)
    requires
        -BOX_MAX <= a <= BOX_MAX,
        -BOX_MAX <= b <= BOX_MAX,
    ensures
        m == mid_of(a as int, b as int),
{
    let m = div_trunc((a as i128) + (b as i128), 2);
    proof {
        crate::math::lemma_sdiv_le(a + b, 2, 0x20000000);
    }
    m as i64
}

impl OcTree {
    /// Nearest-hit query.  The result is a real hit of a primitive stored
    /// in this subtree, and no primitive in the subtree whose hit point
    /// lies in this node's box comes closer.
    pub fn hit(&self, prims: &Vec<HittableObject>, ray: &Ray, t_min: i64, t_max: i64) -> (res:
        Option<HitRecord>)
        requires
            tree_wf(*self, prims@),
            forall|i: int| 0 <= i < prims@.len() ==> prim_wf(#[trigger] prims@[i]),
            ray_wf(*ray),
        ensures
            found_ok(*self, prims@, *ray, t_min as int, t_max as int, res),
            node_beats(*self, prims@, *ray, t_min as int, t_max as int, res),
            res is Some ==> t_min < res->Some_0.t < t_max,
        decreases *self,
    {
        let ghost a = t_min as int;
        let ghost b = t_max as int;
        if !self.bounding_box.may_hit(ray, t_min, t_max) {
            proof {
                assert forall|i: int|
                    0 <= i < prims@.len() && in_tree(*self, i) && prim_hit_t(prims@[i], *ray, a, b)
                        is Some && pt_in_box(
                        *ray,
                        prim_hit_t(prims@[i], *ray, a, b)->Some_0,
                        self.bounding_box,
                    ) implies result_le(
                    None::<HitRecord>,
                    prim_hit_t(prims@[i], *ray, a, b)->Some_0,
                ) by {
                    let t = prim_hit_t(prims@[i], *ray, a, b)->Some_0;
                    lemma_prim_hit_props(prims@[i], *ray, a, b, t);
                    lemma_pt_implies_slab(self.bounding_box, *ray, a, b, t);
                }
            }
            return None;
        }
        if self.is_leaf {
            let mut result: Option<HitRecord> = None;
            let mut closest: i64 = t_max;
            let mut k: usize = 0;
            while k < self.hittables.len()
                invariant
                    k <= self.hittables@.len(),
                    tree_wf(*self, prims@),
                    self.is_leaf,
                    forall|i: int| 0 <= i < prims@.len() ==> prim_wf(#[trigger] prims@[i]),
                    ray_wf(*ray),
                    a == t_min as int,
                    b == t_max as int,
                    closest <= t_max,
                    match result {
                        Some(rec) => closest == rec.t && t_min < rec.t < t_max,
                        None => closest == t_max,
                    },
                    found_ok(*self, prims@, *ray, a, b, result),
                    forall|k2: int|
                        0 <= k2 < k && prim_hit_t(
                            prims@[#[trigger] self.hittables@[k2] as int],
                            *ray,
                            a,
                            b,
                        ) is Some ==> result_le(
                            result,
                            prim_hit_t(prims@[self.hittables@[k2] as int], *ray, a, b)->Some_0,
                        ),
                decreases self.hittables@.len() - k,
            {
                let idx = self.hittables[k];
                let ghost old_result = result;
                let ghost old_closest = closest;
                match prims[idx].hit(ray, t_min, closest) {
                    Some(r2) => {
                        proof {
                            lemma_prim_hit_widen(
                                prims@[idx as int],
                                *ray,
                                a,
                                old_closest as int,
                                b,
                                r2.t as int,
                            );
                            assert(self.hittables@[k as int] == idx);
                            assert(in_tree(*self, idx as int));
                        }
                        result = Some(r2);
                        closest = r2.t;
                    },
                    None => {
                    },
                }
                proof {
                    assert forall|k2: int|
                        0 <= k2 < k + 1 && prim_hit_t(
                            prims@[#[trigger] self.hittables@[k2] as int],
                            *ray,
                            a,
                            b,
                        ) is Some implies result_le(
                        result,
                        prim_hit_t(prims@[self.hittables@[k2] as int], *ray, a, b)->Some_0,
                    ) by {
                        let p2 = prims@[self.hittables@[k2] as int];
                        let t2 = prim_hit_t(p2, *ray, a, b)->Some_0;
                        lemma_prim_hit_props(p2, *ray, a, b, t2);
                        if k2 < k {
                        } else {
                            if t2 < old_closest {
                                lemma_prim_hit_narrow(p2, *ray, a, b, old_closest as int, t2);
                            }
                        }
                    }
                }
                k += 1;
            }
            proof {
                assert forall|i: int|
                    0 <= i < prims@.len() && in_tree(*self, i) && prim_hit_t(prims@[i], *ray, a, b)
                        is Some && pt_in_box(
                        *ray,
                        prim_hit_t(prims@[i], *ray, a, b)->Some_0,
                        self.bounding_box,
                    ) implies result_le(result, prim_hit_t(prims@[i], *ray, a, b)->Some_0) by {
                    let k2 = choose|k2: int|
                        0 <= k2 < self.hittables@.len() && self.hittables@[k2] as int == i;
                    assert(prim_hit_t(prims@[self.hittables@[k2] as int], *ray, a, b) is Some);
                }
            }
            result
        } else {
            let mut result: Option<HitRecord> = None;
            let mut closest: i64 = t_max;
            let mut c: usize = 0;
            while c < self.sub_boxes.len()
                invariant
                    c <= self.sub_boxes@.len(),
                    tree_wf(*self, prims@),
                    !self.is_leaf,
                    forall|i: int| 0 <= i < prims@.len() ==> prim_wf(#[trigger] prims@[i]),
                    ray_wf(*ray),
                    a == t_min as int,
                    b == t_max as int,
                    closest <= t_max,
                    match result {
                        Some(rec) => closest == rec.t && t_min < rec.t < t_max,
                        None => closest == t_max,
                    },
                    found_ok(*self, prims@, *ray, a, b, result),
                    forall|c2: int, i: int|
                        0 <= c2 < c && 0 <= i < prims@.len() && in_tree(
                            #[trigger] self.sub_boxes@[c2],
                            i,
                        ) && (#[trigger] prim_hit_t(prims@[i], *ray, a, b)) is Some && pt_in_box(
                            *ray,
                            prim_hit_t(prims@[i], *ray, a, b)->Some_0,
                            self.sub_boxes@[c2].bounding_box,
                        ) ==> result_le(result, prim_hit_t(prims@[i], *ray, a, b)->Some_0),
                decreases self.sub_boxes@.len() - c,
            {
                let ghost old_result = result;
                let ghost old_closest = closest;
                let child = &self.sub_boxes[c];
                let r2 = child.hit(prims, ray, t_min, closest);
                match r2 {
                    Some(rec2) => {
                        proof {
                            let i2 = choose|i2: int|
                                0 <= i2 < prims@.len() && #[trigger] in_tree(*child, i2)
                                    && prim_hit_t(prims@[i2], *ray, a, old_closest as int) == Some(
                                    rec2.t as int,
                                ) && prim_rec_ok(prims@[i2], *ray, rec2) && a < rec2.t
                                    < old_closest;
                            lemma_prim_hit_widen(
                                prims@[i2],
                                *ray,
                                a,
                                old_closest as int,
                                b,
                                rec2.t as int,
                            );
                            assert(in_tree(*self, i2));
                        }
                        result = Some(rec2);
                        closest = rec2.t;
                    },
                    None => {
                    },
                }
                proof {
                    assert forall|c2: int, i: int|
                        0 <= c2 < c + 1 && 0 <= i < prims@.len() && in_tree(
                            #[trigger] self.sub_boxes@[c2],
                            i,
                        ) && (#[trigger] prim_hit_t(prims@[i], *ray, a, b)) is Some && pt_in_box(
                            *ray,
                            prim_hit_t(prims@[i], *ray, a, b)->Some_0,
                            self.sub_boxes@[c2].bounding_box,
                        ) implies result_le(result, prim_hit_t(prims@[i], *ray, a, b)->Some_0) by {
                        let t2 = prim_hit_t(prims@[i], *ray, a, b)->Some_0;
                        lemma_prim_hit_props(prims@[i], *ray, a, b, t2);
                        if c2 < c {
                        } else {
                            if t2 < closest {
                                lemma_prim_hit_narrow(
                                    prims@[i],
                                    *ray,
                                    a,
                                    b,
                                    old_closest as int,
                                    t2,
                                );
                                assert(result_le(r2, t2));
                            }
                        }
                    }
                }
                c += 1;
            }
            proof {
                assert forall|i: int|
                    0 <= i < prims@.len() && in_tree(*self, i) && prim_hit_t(prims@[i], *ray, a, b)
                        is Some && pt_in_box(
                        *ray,
                        prim_hit_t(prims@[i], *ray, a, b)->Some_0,
                        self.bounding_box,
                    ) implies result_le(result, prim_hit_t(prims@[i], *ray, a, b)->Some_0) by {
                    let t2 = prim_hit_t(prims@[i], *ray, a, b)->Some_0;
                    lemma_prim_hit_props(prims@[i], *ray, a, b, t2);
                    lemma_octant_cover(self.bounding_box, *ray, t2);
                    let c2 = choose|c2: int|
                        0 <= c2 < 8 && pt_in_box(*ray, t2, #[trigger] octant(self.bounding_box, c2));
                    assert(self.sub_boxes@[c2].bounding_box == octant(self.bounding_box, c2));
                    lemma_common_point_overlaps(
                        *ray,
                        t2,
                        prim_qbox(prims@[i]),
                        self.sub_boxes@[c2].bounding_box,
                    );
                    assert(in_tree(self.sub_boxes@[c2], i));
                }
            }
            result
        }
    }
}

/// A primitive's index box is a well-formed box within range.
pub proof fn lemma_prim_qbox_wf(p: HittableObject)
    requires
        prim_wf(p),
    ensures
        box_wf(prim_qbox(p)),
        crate::vec3::in_range(prim_qbox(p).min, 0x8000100),
        crate::vec3::in_range(prim_qbox(p).max, 0x8000100),
{
}

} // verus!
