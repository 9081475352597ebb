//! Rigid placements: a rotation by a multiple of 18 degrees together with a
//! translation, and the fixed connection transforms between prototiles.
//!
//! A transform T with rotation exponent k and translation t sends a point p
//! to z^k * p + t.  The connection transform for (anchor type, anchor side,
//! new type) places the new prototile so that its matching side lies exactly
//! on the chosen side of the anchor, with opposite orientation; it is
//! computed from the prototile tables alone, and
//! `lemma_connection_maps_side` proves the placement exact.

use vstd::prelude::*;
use crate::ring::{
    Pt, SPt, pt_add_s, pt_sub_s, pt_neg_s, pt_zero_s, pt_bounded, rot_s, lemma_rot_split,
    lemma_rot_twenty, lemma_rot_ten, lemma_rot_add_distributes, lemma_rot_sub_distributes,
    lemma_rot_bounded, ROT_IN_LIMIT, RING_OP_LIMIT,
};
use crate::prototile::{
    PrototileType, base_pt_s, side_dir_s, matching_s, two_s, matching_side, lemma_side_vector,
    lemma_base_points_bounded,
};

verus! {

/// A rigid motion of the plane: rotation by k * 18 degrees, then translation.
#[derive(Clone, Copy, PartialEq, Eq, Structural, Debug)]
pub struct Xform {
    pub k: usize,
    pub t: Pt,
}

/// The mathematical value of a transform.
pub ghost struct SXf {
    pub k: int,
    pub t: SPt,
}

impl View for Xform {
    type V = SXf;

    open spec fn view(&self) -> SXf {
        SXf { k: self.k as int, t: self.t@ }
    }
}

pub open spec fn xf_wf(x: SXf) -> bool {
    0 <= x.k < 20
}

pub open spec fn apply_s(x: SXf, p: SPt) -> SPt {
    pt_add_s(rot_s(x.k as nat, p), x.t)
}

pub open spec fn identity_s() -> SXf {
    SXf { k: 0, t: pt_zero_s() }
}

/// Normalisation of a rotation exponent into [0, 20), for inputs in
/// (-20, 40).
pub open spec fn norm20(x: int) -> int {
    if x < 0 {
        x + 20
    } else if x >= 20 {
        x - 20
    } else {
        x
    }
}

pub open spec fn compose_s(a: SXf, b: SXf) -> SXf {
    SXf { k: norm20(a.k + b.k), t: pt_add_s(rot_s(a.k as nat, b.t), a.t) }
}

/// Rotation exponents compose modulo a full turn.
pub proof fn lemma_rot_norm(j: nat, k: nat, a: SPt)
    requires
        j < 20,
        k < 20,
    ensures
        rot_s(norm20((j + k) as int) as nat, a) == rot_s(j, rot_s(k, a)),
{
    lemma_rot_split(j, k, a);
    if j + k >= 20 {
        let r = norm20((j + k) as int) as nat;
        assert(j + k == r + 20);
        lemma_rot_split(r, 20, a);
        lemma_rot_twenty(a);
    }
}

/// Applying a composed transform is applying one after the other.
pub proof fn lemma_apply_compose(a: SXf, b: SXf, p: SPt)
    requires
        xf_wf(a),
        xf_wf(b),
    ensures
        apply_s(compose_s(a, b), p) == apply_s(a, apply_s(b, p)),
{
    lemma_rot_norm(a.k as nat, b.k as nat, p);
    lemma_rot_add_distributes(a.k as nat, rot_s(b.k as nat, p), b.t);
}

impl Xform {
    pub open spec fn wf(self) -> bool {
        xf_wf(self@)
    }

    pub fn identity() -> (r: Xform)
        ensures
            r@ == identity_s(),
            r.wf(),
    {
        Xform { k: 0, t: Pt::zero() }
    }

    /// The image of a point under this transform.
    pub fn apply(&self, p: &Pt) -> (r: Pt)
        requires
            self.wf(),
            p.bounded(ROT_IN_LIMIT as int),
            self.t.bounded(RING_OP_LIMIT as int / 2),
        ensures
            r@ == apply_s(self@, p@),
    {
        let rp = p.pt_rot(self.k);
        proof {
            lemma_rot_bounded(self.k as nat, p@, ROT_IN_LIMIT as int);
        }
        rp.pt_add(&self.t)
    }

    /// This transform followed after `o`: first `o`, then `self`.
    pub fn compose(&self, o: &Xform) -> (r: Xform)
        requires
            self.wf(),
            o.wf(),
            o.t.bounded(ROT_IN_LIMIT as int),
            self.t.bounded(RING_OP_LIMIT as int / 2),
        ensures
            r@ == compose_s(self@, o@),
            r.wf(),
    {
        let mut k = self.k + o.k;
        if k >= 20 {
            k = k - 20;
        }
        let rt = o.t.pt_rot(self.k);
        proof {
            lemma_rot_bounded(self.k as nat, o.t@, ROT_IN_LIMIT as int);
        }
        Xform { k, t: rt.pt_add(&self.t) }
    }
}

/// The rotation exponent of the connection transform.
pub open spec fn conn_k_s(on: PrototileType, side: int, other: PrototileType) -> int {
    norm20(10 + side_dir_s(on, side) - side_dir_s(other, matching_s(on, side, other)))
}

/// The connection transform for attaching a tile of type `other` on side
/// `side` of a tile of type `on`, both in local space.
pub open spec fn conn_s(on: PrototileType, side: int, other: PrototileType) -> SXf {
    let m = matching_s(on, side, other);
    let k = conn_k_s(on, side, other);
    SXf {
        k: k,
        t: pt_sub_s(base_pt_s(on, (side + 1) % 4), rot_s(k as nat, base_pt_s(other, m))),
    }
}

/// The connection transform carries the matching side of the new tile onto
/// the chosen side of the anchor, endpoints swapped: the shared edge is
/// traversed in opposite directions by the two tiles.
pub proof fn lemma_connection_maps_side(on: PrototileType, side: int, other: PrototileType)
    requires
        0 <= side < 4,
    ensures
        apply_s(conn_s(on, side, other), base_pt_s(other, matching_s(on, side, other)))
            == base_pt_s(on, (side + 1) % 4),
        apply_s(
            conn_s(on, side, other),
            base_pt_s(other, (matching_s(on, side, other) + 1) % 4),
        ) == base_pt_s(on, side),
{
    let m = matching_s(on, side, other);
    let k = conn_k_s(on, side, other);
    let da = side_dir_s(on, side);
    let db = side_dir_s(other, m);
    let pm = base_pt_s(other, m);
    let pm1 = base_pt_s(other, (m + 1) % 4);
    let qs = base_pt_s(on, side);
    let qs1 = base_pt_s(on, (side + 1) % 4);
    let x = conn_s(on, side, other);

    // First endpoint: by construction of the translation.
    assert(apply_s(x, pm) == qs1);

    // Second endpoint: the rotated side vector of the new tile is the
    // reversed side vector of the anchor.
    assert(apply_s(x, pm1) == pt_add_s(qs1, pt_sub_s(rot_s(k as nat, pm1), rot_s(k as nat, pm))));
    lemma_rot_sub_distributes(k as nat, pm1, pm);
    lemma_side_vector(other, m);
    assert(pt_sub_s(rot_s(k as nat, pm1), rot_s(k as nat, pm)) == rot_s(
        k as nat,
        rot_s(db as nat, two_s()),
    ));
    lemma_rot_norm(k as nat, db as nat, two_s());
    assert(norm20(k + db) == norm20(10 + da)) by {
        assert(k == norm20(10 + da - db));
    }
    assert(norm20(10 + da) == norm20(10 + norm20(da)));
    lemma_rot_norm(10, norm20(da) as nat, two_s());
    lemma_rot_ten(rot_s(da as nat, two_s()));
    lemma_side_vector(on, side);
    assert(rot_s(norm20(k + db) as nat, two_s()) == pt_neg_s(pt_sub_s(qs1, qs)));
    assert(apply_s(x, pm1) == qs);
}

/// The connection transform for attaching a tile of type `other` on side
/// `side` of a tile of type `on`.
pub fn connection_transform(on: PrototileType, side: usize, other: PrototileType) -> (r: Xform)
    requires
        side < 4,
    ensures
        r@ == conn_s(on, side as int, other),
        r.wf(),
        pt_bounded(r@.t, 18),
{
    let m = matching_side(on, side, other);
    let da = on.side_dir(side);
    let db = other.side_dir(m);
    let mut k = 10 + da;
    if k < db {
        k = k + 20;
    }
    k = k - db;
    if k >= 20 {
        k = k - 20;
    }
    assert(k as int == conn_k_s(on, side as int, other));
    let pm = other.base_point(m);
    let rp = pm.pt_rot(k);
    proof {
        lemma_base_points_bounded(other, m as int);
        lemma_rot_bounded(k as nat, pm@, 2);
        lemma_base_points_bounded(on, ((side + 1) % 4) as int);
    }
    let next = if side == 3 { 0 } else { side + 1 };
    let q = on.base_point(next);
    Xform { k, t: q.pt_sub(&rp) }
}

} // verus!
