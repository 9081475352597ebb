//! Overlap test for two placed prototiles: the separating axis theorem for
//! convex quadrilaterals, in exact arithmetic.
//!
//! For every side direction of either tile, both vertex sets are projected
//! onto the normal of that direction; if one whole set lies on one side of
//! the other, the axis separates the tiles and they do not overlap.  Two
//! tiles glued along a shared edge project onto touching intervals along the
//! normal of that edge, which counts as separated, so exact edge-sharing is
//! not a collision.
//!
//! The projection of a point p onto the normal of the direction z^j is a
//! fixed positive multiple of Im(z^(-j) * p), so projections are compared by
//! the exact sign of the imaginary part of a ring point.

use vstd::prelude::*;
use crate::ring::{
    Pt, SPt, pt_sub_s, pt_neg_s, pt_bounded, rot_s, lemma_rot_bounded, lemma_rot_neg_distributes,
};
use crate::sign::{im16_s, im16_sign, qd_sign_s, lemma_qd_sign_antisym, lemma_im16_neg};
use crate::prototile::{PrototileType, base_pt_s, side_dir_s, lemma_base_points_bounded};
use crate::xform::{Xform, SXf, apply_s, xf_wf, norm20};

verus! {

// Largest translation magnitude a placed tile may carry.
pub const TRANS_LIMIT: i64 = 600;

// Largest coordinate magnitude of a world-space vertex of a placed tile.
pub const WORLD_PT_LIMIT: i64 = 616;

/// The world-space vertex i of a tile of the given type under a transform.
pub open spec fn world_pt_s(kind: PrototileType, xf: SXf, i: int) -> SPt {
    apply_s(xf, base_pt_s(kind, i))
}

/// The world-space direction exponent of side s of a placed tile.
pub open spec fn world_dir_s(kind: PrototileType, xf: SXf, s: int) -> int {
    norm20(xf.k + side_dir_s(kind, s))
}

/// The rotation exponent that undoes a rotation by j steps.
pub open spec fn inv20(j: int) -> int {
    if j == 0 {
        0
    } else {
        20 - j
    }
}

/// Sign of the difference of the projections of p and q onto the normal of
/// the direction z^j.
pub open spec fn proj_cmp_s(j: int, p: SPt, q: SPt) -> int {
    qd_sign_s(im16_s(rot_s(inv20(j) as nat, pt_sub_s(p, q))))
}

/// Every vertex of tile a projects at or below every vertex of tile b on
/// the normal of direction z^j.
pub open spec fn sep_le_s(
    j: int,
    ka: PrototileType,
    xa: SXf,
    kb: PrototileType,
    xb: SXf,
) -> bool {
    forall|i: int, l: int|
        0 <= i < 4 && 0 <= l < 4 ==> #[trigger] proj_cmp_s(
            j,
            world_pt_s(ka, xa, i),
            world_pt_s(kb, xb, l),
        ) <= 0
}

/// The normal of direction z^j separates the two tiles (touching allowed).
pub open spec fn sep_axis_s(
    j: int,
    ka: PrototileType,
    xa: SXf,
    kb: PrototileType,
    xb: SXf,
) -> bool {
    sep_le_s(j, ka, xa, kb, xb) || sep_le_s(j, kb, xb, ka, xa)
}

/// Two placed tiles overlap: no side direction of either tile yields a
/// separating axis.
pub open spec fn tiles_collide_s(
    ka: PrototileType,
    xa: SXf,
    kb: PrototileType,
    xb: SXf,
) -> bool {
    !(exists|s: int|
        #![trigger sep_axis_s(world_dir_s(ka, xa, s), ka, xa, kb, xb)]
        #![trigger sep_axis_s(world_dir_s(kb, xb, s), ka, xa, kb, xb)]
        0 <= s < 4 && (sep_axis_s(world_dir_s(ka, xa, s), ka, xa, kb, xb)
            || sep_axis_s(world_dir_s(kb, xb, s), ka, xa, kb, xb)))
}

/// Swapping the two points negates the projection comparison.
pub proof fn lemma_proj_cmp_antisym(j: int, p: SPt, q: SPt)
    ensures
        proj_cmp_s(j, q, p) == -proj_cmp_s(j, p, q),
{
    let d = pt_sub_s(p, q);
    assert(pt_sub_s(q, p) == pt_neg_s(d));
    lemma_rot_neg_distributes(inv20(j) as nat, d);
    lemma_im16_neg(rot_s(inv20(j) as nat, d));
    lemma_qd_sign_antisym(im16_s(rot_s(inv20(j) as nat, d)));
}

/// The overlap relation is symmetric.
pub proof fn lemma_collide_symmetric(ka: PrototileType, xa: SXf, kb: PrototileType, xb: SXf)
    ensures
        tiles_collide_s(ka, xa, kb, xb) == tiles_collide_s(kb, xb, ka, xa),
{
    if exists|s: int|
        #![trigger sep_axis_s(world_dir_s(ka, xa, s), ka, xa, kb, xb)]
        #![trigger sep_axis_s(world_dir_s(kb, xb, s), ka, xa, kb, xb)]
        0 <= s < 4 && (sep_axis_s(world_dir_s(ka, xa, s), ka, xa, kb, xb)
            || sep_axis_s(world_dir_s(kb, xb, s), ka, xa, kb, xb)) {
        let s = choose|s: int|
            #![trigger sep_axis_s(world_dir_s(ka, xa, s), ka, xa, kb, xb)]
            #![trigger sep_axis_s(world_dir_s(kb, xb, s), ka, xa, kb, xb)]
            0 <= s < 4 && (sep_axis_s(world_dir_s(ka, xa, s), ka, xa, kb, xb)
                || sep_axis_s(world_dir_s(kb, xb, s), ka, xa, kb, xb));
        if sep_axis_s(world_dir_s(ka, xa, s), ka, xa, kb, xb) {
            assert(sep_axis_s(world_dir_s(ka, xa, s), kb, xb, ka, xa));
        } else {
            assert(sep_axis_s(world_dir_s(kb, xb, s), kb, xb, ka, xa));
        }
        assert(!tiles_collide_s(kb, xb, ka, xa));
    }
    if exists|s: int|
        #![trigger sep_axis_s(world_dir_s(kb, xb, s), kb, xb, ka, xa)]
        #![trigger sep_axis_s(world_dir_s(ka, xa, s), kb, xb, ka, xa)]
        0 <= s < 4 && (sep_axis_s(world_dir_s(kb, xb, s), kb, xb, ka, xa)
            || sep_axis_s(world_dir_s(ka, xa, s), kb, xb, ka, xa)) {
        let s = choose|s: int|
            #![trigger sep_axis_s(world_dir_s(kb, xb, s), kb, xb, ka, xa)]
            #![trigger sep_axis_s(world_dir_s(ka, xa, s), kb, xb, ka, xa)]
            0 <= s < 4 && (sep_axis_s(world_dir_s(kb, xb, s), kb, xb, ka, xa)
                || sep_axis_s(world_dir_s(ka, xa, s), kb, xb, ka, xa));
        if sep_axis_s(world_dir_s(kb, xb, s), kb, xb, ka, xa) {
            assert(sep_axis_s(world_dir_s(kb, xb, s), ka, xa, kb, xb));
        } else {
            assert(sep_axis_s(world_dir_s(ka, xa, s), ka, xa, kb, xb));
        }
        assert(!tiles_collide_s(ka, xa, kb, xb));
    }
}

/// Every world-space vertex of a tile within the translation limit is
/// bounded.
pub proof fn lemma_world_pt_bounded(kind: PrototileType, xf: SXf, i: int)
    requires
        xf_wf(xf),
        pt_bounded(xf.t, TRANS_LIMIT as int),
    ensures
        pt_bounded(world_pt_s(kind, xf, i), WORLD_PT_LIMIT as int),
{
    lemma_base_points_bounded(kind, i);
    lemma_rot_bounded(xf.k as nat, base_pt_s(kind, i), 2);
}

/// The four world-space vertices of a placed tile.
pub struct Poly {
    pub p0: Pt,
    pub p1: Pt,
    pub p2: Pt,
    pub p3: Pt,
}

impl Poly {
    pub open spec fn at(self, i: int) -> SPt {
        if i == 0 {
            self.p0@
        } else if i == 1 {
            self.p1@
        } else if i == 2 {
            self.p2@
        } else {
            self.p3@
        }
    }

    pub open spec fn is_world_of(self, kind: PrototileType, xf: SXf) -> bool {
        forall|i: int| 0 <= i < 4 ==> #[trigger] self.at(i) == world_pt_s(kind, xf, i)
    }

    pub open spec fn all_bounded(self, m: int) -> bool {
        forall|i: int| 0 <= i < 4 ==> pt_bounded(#[trigger] self.at(i), m)
    }

    pub fn get(&self, i: usize) -> (r: Pt)
        requires
            i < 4,
        ensures
            r@ == self.at(i as int),
    {
        if i == 0 {
            self.p0
        } else if i == 1 {
            self.p1
        } else if i == 2 {
            self.p2
        } else {
            self.p3
        }
    }
}

/// The world-space polygon of a placed tile.
pub fn world_poly(kind: PrototileType, xf: &Xform) -> (r: Poly)
    requires
        xf.wf(),
        xf.t.bounded(TRANS_LIMIT as int),
    ensures
        r.is_world_of(kind, xf@),
        r.all_bounded(WORLD_PT_LIMIT as int),
{
    let r = Poly {
        p0: xf.apply(&kind.base_point(0)),
        p1: xf.apply(&kind.base_point(1)),
        p2: xf.apply(&kind.base_point(2)),
        p3: xf.apply(&kind.base_point(3)),
    };
    proof {
        assert forall|i: int| 0 <= i < 4 implies #[trigger] r.at(i) == world_pt_s(
            kind,
            xf@,
            i,
        ) by {}
        assert forall|i: int| 0 <= i < 4 implies pt_bounded(#[trigger] r.at(i), WORLD_PT_LIMIT as int) by {
            lemma_world_pt_bounded(kind, xf@, i);
        }
    }
    r
}

/// Whether the normal of direction z^j separates the vertex sets of the two
/// polygons.
fn axis_separates(
    j: usize,
    a: &Poly,
    b: &Poly,
    Ghost(ka): Ghost<PrototileType>,
    Ghost(xa): Ghost<SXf>,
    Ghost(kb): Ghost<PrototileType>,
    Ghost(xb): Ghost<SXf>,
) -> (r: bool)
    requires
        j < 20,
        a.is_world_of(ka, xa),
        b.is_world_of(kb, xb),
        a.all_bounded(WORLD_PT_LIMIT as int),
        b.all_bounded(WORLD_PT_LIMIT as int),
    ensures
        r == sep_axis_s(j as int, ka, xa, kb, xb),
{
    let inv_j: usize = if j == 0 { 0 } else { 20 - j };
    let mut le_all = true;
    let mut ge_all = true;
    let mut i: usize = 0;
    while i < 4
        invariant
            i <= 4,
            j < 20,
            inv_j as int == inv20(j as int),
            a.is_world_of(ka, xa),
            b.is_world_of(kb, xb),
            a.all_bounded(WORLD_PT_LIMIT as int),
            b.all_bounded(WORLD_PT_LIMIT as int),
            le_all ==> forall|i2: int, l2: int|
                0 <= i2 < i && 0 <= l2 < 4 ==> #[trigger] proj_cmp_s(
                    j as int,
                    world_pt_s(ka, xa, i2),
                    world_pt_s(kb, xb, l2),
                ) <= 0,
            ge_all ==> forall|i2: int, l2: int|
                0 <= i2 < i && 0 <= l2 < 4 ==> #[trigger] proj_cmp_s(
                    j as int,
                    world_pt_s(ka, xa, i2),
                    world_pt_s(kb, xb, l2),
                ) >= 0,
            !le_all ==> exists|i2: int, l2: int|
                0 <= i2 < 4 && 0 <= l2 < 4 && #[trigger] proj_cmp_s(
                    j as int,
                    world_pt_s(ka, xa, i2),
                    world_pt_s(kb, xb, l2),
                ) > 0,
            !ge_all ==> exists|i2: int, l2: int|
                0 <= i2 < 4 && 0 <= l2 < 4 && #[trigger] proj_cmp_s(
                    j as int,
                    world_pt_s(ka, xa, i2),
                    world_pt_s(kb, xb, l2),
                ) < 0,
        decreases 4 - i,
    {
        let pa = a.get(i);
        let ghost le_outer = le_all;
        let ghost ge_outer = ge_all;
        let mut l: usize = 0;
        while l < 4
            invariant
                i < 4,
                l <= 4,
                j < 20,
                inv_j as int == inv20(j as int),
                a.is_world_of(ka, xa),
                b.is_world_of(kb, xb),
                a.all_bounded(WORLD_PT_LIMIT as int),
                b.all_bounded(WORLD_PT_LIMIT as int),
                pa@ == world_pt_s(ka, xa, i as int),
                le_all ==> le_outer,
                ge_all ==> ge_outer,
                le_outer ==> forall|i2: int, l2: int|
                    0 <= i2 < i && 0 <= l2 < 4 ==> #[trigger] proj_cmp_s(
                        j as int,
                        world_pt_s(ka, xa, i2),
                        world_pt_s(kb, xb, l2),
                    ) <= 0,
                ge_outer ==> forall|i2: int, l2: int|
                    0 <= i2 < i && 0 <= l2 < 4 ==> #[trigger] proj_cmp_s(
                        j as int,
                        world_pt_s(ka, xa, i2),
                        world_pt_s(kb, xb, l2),
                    ) >= 0,
                le_all ==> forall|l2: int|
                    0 <= l2 < l ==> #[trigger] proj_cmp_s(
                        j as int,
                        world_pt_s(ka, xa, i as int),
                        world_pt_s(kb, xb, l2),
                    ) <= 0,
                ge_all ==> forall|l2: int|
                    0 <= l2 < l ==> #[trigger] proj_cmp_s(
                        j as int,
                        world_pt_s(ka, xa, i as int),
                        world_pt_s(kb, xb, l2),
                    ) >= 0,
                !le_all ==> exists|i2: int, l2: int|
                    0 <= i2 < 4 && 0 <= l2 < 4 && #[trigger] proj_cmp_s(
                        j as int,
                        world_pt_s(ka, xa, i2),
                        world_pt_s(kb, xb, l2),
                    ) > 0,
                !ge_all ==> exists|i2: int, l2: int|
                    0 <= i2 < 4 && 0 <= l2 < 4 && #[trigger] proj_cmp_s(
                        j as int,
                        world_pt_s(ka, xa, i2),
                        world_pt_s(kb, xb, l2),
                    ) < 0,
            decreases 4 - l,
        {
            let pb = b.get(l);
            proof {
                assert(a.at(i as int) == world_pt_s(ka, xa, i as int));
                assert(b.at(l as int) == world_pt_s(kb, xb, l as int));
                assert(pt_bounded(pa@, WORLD_PT_LIMIT as int));
                assert(pt_bounded(pb@, WORLD_PT_LIMIT as int));
            }
            let d = pa.pt_sub(&pb);
            let w = d.pt_rot(inv_j);
            proof {
                lemma_rot_bounded(inv_j as nat, d@, 2 * WORLD_PT_LIMIT as int);
            }
            let sg = im16_sign(&w);
            proof {
                assert(sg as int == proj_cmp_s(
                    j as int,
                    world_pt_s(ka, xa, i as int),
                    world_pt_s(kb, xb, l as int),
                ));
            }
            if sg > 0 {
                le_all = false;
            }
            if sg < 0 {
                ge_all = false;
            }
            l = l + 1;
        }
        proof {
            if le_all {
                assert forall|i2: int, l2: int|
                    0 <= i2 < i + 1 && 0 <= l2 < 4 implies #[trigger] proj_cmp_s(
                    j as int,
                    world_pt_s(ka, xa, i2),
                    world_pt_s(kb, xb, l2),
                ) <= 0 by {}
            }
            if ge_all {
                assert forall|i2: int, l2: int|
                    0 <= i2 < i + 1 && 0 <= l2 < 4 implies #[trigger] proj_cmp_s(
                    j as int,
                    world_pt_s(ka, xa, i2),
                    world_pt_s(kb, xb, l2),
                ) >= 0 by {}
            }
        }
        i = i + 1;
    }
    if le_all {
        assert(sep_le_s(j as int, ka, xa, kb, xb));
        true
    } else if ge_all {
        assert forall|i2: int, l2: int| 0 <= i2 < 4 && 0 <= l2 < 4 implies #[trigger] proj_cmp_s(
            j as int,
            world_pt_s(kb, xb, i2),
            world_pt_s(ka, xa, l2),
        ) <= 0 by {
            lemma_proj_cmp_antisym(j as int, world_pt_s(ka, xa, l2), world_pt_s(kb, xb, i2));
        }
        assert(sep_le_s(j as int, kb, xb, ka, xa));
        true
    } else {
        assert(!sep_le_s(j as int, ka, xa, kb, xb));
        assert(!sep_le_s(j as int, kb, xb, ka, xa)) by {
            let (i2, l2): (int, int) = choose|i2: int, l2: int|
                0 <= i2 < 4 && 0 <= l2 < 4 && #[trigger] proj_cmp_s(
                    j as int,
                    world_pt_s(ka, xa, i2),
                    world_pt_s(kb, xb, l2),
                ) < 0;
            lemma_proj_cmp_antisym(j as int, world_pt_s(ka, xa, i2), world_pt_s(kb, xb, l2));
            assert(proj_cmp_s(j as int, world_pt_s(kb, xb, l2), world_pt_s(ka, xa, i2)) > 0);
        }
        false
    }
}

/// Whether two placed tiles overlap beyond shared-edge contact.
pub fn tiles_collide(ka: PrototileType, xa: &Xform, kb: PrototileType, xb: &Xform) -> (r: bool)
    requires
        xa.wf(),
        xb.wf(),
        xa.t.bounded(TRANS_LIMIT as int),
        xb.t.bounded(TRANS_LIMIT as int),
    ensures
        r == tiles_collide_s(ka, xa@, kb, xb@),
{
    let pa = world_poly(ka, xa);
    let pb = world_poly(kb, xb);
    let mut s: usize = 0;
    while s < 4
        invariant
            s <= 4,
            xa.wf(),
            xb.wf(),
            pa.is_world_of(ka, xa@),
            pb.is_world_of(kb, xb@),
            pa.all_bounded(WORLD_PT_LIMIT as int),
            pb.all_bounded(WORLD_PT_LIMIT as int),
            forall|s2: int|
                0 <= s2 < s ==> !(#[trigger] sep_axis_s(world_dir_s(ka, xa@, s2), ka, xa@, kb, xb@)
                    || sep_axis_s(world_dir_s(kb, xb@, s2), ka, xa@, kb, xb@)),
        decreases 4 - s,
    {
        let da = ka.side_dir(s);
        let mut ja = xa.k + da;
        if ja >= 20 {
            ja = ja - 20;
        }
        assert(ja as int == world_dir_s(ka, xa@, s as int));
        if axis_separates(ja, &pa, &pb, Ghost(ka), Ghost(xa@), Ghost(kb), Ghost(xb@)) {
            return false;
        }
        let db = kb.side_dir(s);
        let mut jb = xb.k + db;
        if jb >= 20 {
            jb = jb - 20;
        }
        assert(jb as int == world_dir_s(kb, xb@, s as int));
        if axis_separates(jb, &pa, &pb, Ghost(ka), Ghost(xa@), Ghost(kb), Ghost(xb@)) {
            return false;
        }
        s = s + 1;
    }
    true
}

} // verus!
