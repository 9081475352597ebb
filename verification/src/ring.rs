//! Exact plane coordinates in the ring of integers of the 20th cyclotomic
//! field.
//!
//! A point is written c0 + c1*z + ... + c7*z^7 with z = e^(i*pi/10), a
//! primitive 20th root of unity, and integer coordinates c0..c7.  The minimal
//! polynomial of z is z^8 = z^6 - z^4 + z^2 - 1, which gives the reduction
//! rule used by `mul_z_s`.  Multiplication by z is an exact rotation of the
//! plane by 18 degrees, so every rotation used by the tiling (all are
//! multiples of 18 degrees) is an exact linear map on the coordinates, and
//! translation is coordinatewise addition.

use vstd::prelude::*;

verus! {

/// A plane point with exact cyclotomic integer coordinates.
#[derive(Clone, Copy, PartialEq, Eq, Structural, Debug)]
pub struct Pt {
    pub c0: i64,
    pub c1: i64,
    pub c2: i64,
    pub c3: i64,
    pub c4: i64,
    pub c5: i64,
    pub c6: i64,
    pub c7: i64,
}

/// The mathematical value of a point: unbounded integer coordinates.
pub ghost struct SPt {
    pub c0: int,
    pub c1: int,
    pub c2: int,
    pub c3: int,
    pub c4: int,
    pub c5: int,
    pub c6: int,
    pub c7: int,
}

impl View for Pt {
    type V = SPt;

    open spec fn view(&self) -> SPt {
        SPt {
            c0: self.c0 as int,
            c1: self.c1 as int,
            c2: self.c2 as int,
            c3: self.c3 as int,
            c4: self.c4 as int,
            c5: self.c5 as int,
            c6: self.c6 as int,
            c7: self.c7 as int,
        }
    }
}

pub open spec fn pt_add_s(a: SPt, b: SPt) -> SPt {
    SPt {
        c0: a.c0 + b.c0,
        c1: a.c1 + b.c1,
        c2: a.c2 + b.c2,
        c3: a.c3 + b.c3,
        c4: a.c4 + b.c4,
        c5: a.c5 + b.c5,
        c6: a.c6 + b.c6,
        c7: a.c7 + b.c7,
    }
}

pub open spec fn pt_sub_s(a: SPt, b: SPt) -> SPt {
    SPt {
        c0: a.c0 - b.c0,
        c1: a.c1 - b.c1,
        c2: a.c2 - b.c2,
        c3: a.c3 - b.c3,
        c4: a.c4 - b.c4,
        c5: a.c5 - b.c5,
        c6: a.c6 - b.c6,
        c7: a.c7 - b.c7,
    }
}

pub open spec fn pt_neg_s(a: SPt) -> SPt {
    SPt {
        c0: -a.c0,
        c1: -a.c1,
        c2: -a.c2,
        c3: -a.c3,
        c4: -a.c4,
        c5: -a.c5,
        c6: -a.c6,
        c7: -a.c7,
    }
}

pub open spec fn pt_zero_s() -> SPt {
    SPt { c0: 0, c1: 0, c2: 0, c3: 0, c4: 0, c5: 0, c6: 0, c7: 0 }
}

/// Multiplication by z, the rotation by 18 degrees, with the reduction
/// z^8 = z^6 - z^4 + z^2 - 1.
pub open spec fn mul_z_s(a: SPt) -> SPt {
    SPt {
        c0: -a.c7,
        c1: a.c0,
        c2: a.c1 + a.c7,
        c3: a.c2,
        c4: a.c3 - a.c7,
        c5: a.c4,
        c6: a.c5 + a.c7,
        c7: a.c6,
    }
}

/// Rotation by k * 18 degrees: k-fold multiplication by z.
pub open spec fn rot_s(k: nat, a: SPt) -> SPt
    decreases k,
{
    if k == 0 {
        a
    } else {
        mul_z_s(rot_s((k - 1) as nat, a))
    }
}

/// All eight coordinates lie in [-m, m].
pub open spec fn pt_bounded(a: SPt, m: int) -> bool {
    &&& -m <= a.c0 <= m
    &&& -m <= a.c1 <= m
    &&& -m <= a.c2 <= m
    &&& -m <= a.c3 <= m
    &&& -m <= a.c4 <= m
    &&& -m <= a.c5 <= m
    &&& -m <= a.c6 <= m
    &&& -m <= a.c7 <= m
}

pub proof fn lemma_rot_split(j: nat, k: nat, a: SPt)
    ensures
        rot_s(j + k, a) == rot_s(j, rot_s(k, a)),
    decreases j,
{
    if j == 0 {
    } else {
        lemma_rot_split((j - 1) as nat, k, a);
        assert(j + k == 1 + ((j - 1) as nat + k));
    }
}

/// Ten steps of 18 degrees are a half turn: z^10 = -1.
pub proof fn lemma_rot_ten(a: SPt)
    ensures
        rot_s(10, a) == pt_neg_s(a),
{
    reveal_with_fuel(rot_s, 11);
}

/// A full turn is the identity: z^20 = 1.
pub proof fn lemma_rot_twenty(a: SPt)
    ensures
        rot_s(20, a) == a,
{
    lemma_rot_split(10, 10, a);
    lemma_rot_ten(a);
    lemma_rot_ten(pt_neg_s(a));
}

pub proof fn lemma_rot_add_distributes(k: nat, a: SPt, b: SPt)
    ensures
        rot_s(k, pt_add_s(a, b)) == pt_add_s(rot_s(k, a), rot_s(k, b)),
    decreases k,
{
    if k == 0 {
    } else {
        lemma_rot_add_distributes((k - 1) as nat, a, b);
    }
}

pub proof fn lemma_rot_neg_distributes(k: nat, a: SPt)
    ensures
        rot_s(k, pt_neg_s(a)) == pt_neg_s(rot_s(k, a)),
    decreases k,
{
    if k == 0 {
    } else {
        lemma_rot_neg_distributes((k - 1) as nat, a);
    }
}

pub proof fn lemma_rot_sub_distributes(k: nat, a: SPt, b: SPt)
    ensures
        rot_s(k, pt_sub_s(a, b)) == pt_sub_s(rot_s(k, a), rot_s(k, b)),
{
    lemma_rot_add_distributes(k, a, pt_neg_s(b));
    lemma_rot_neg_distributes(k, b);
    assert(pt_sub_s(a, b) == pt_add_s(a, pt_neg_s(b)));
    assert(pt_sub_s(rot_s(k, a), rot_s(k, b)) == pt_add_s(rot_s(k, a), pt_neg_s(rot_s(k, b))));
}

/// A rotation is injective: it can be undone by the complementary rotation.
pub proof fn lemma_rot_injective(k: nat, a: SPt, b: SPt)
    requires
        k < 20,
        rot_s(k, a) == rot_s(k, b),
    ensures
        a == b,
{
    lemma_rot_split((20 - k) as nat, k, a);
    lemma_rot_split((20 - k) as nat, k, b);
    lemma_rot_twenty(a);
    lemma_rot_twenty(b);
}

/// Any rotation of a bounded point is bounded: each coordinate of z^k * a is
/// a signed sum of coordinates of a with coefficients in {-1, 0, 1}, of which
/// at most eight contribute.
pub proof fn lemma_rot_bounded(k: nat, a: SPt, m: int)
    requires
        k < 20,
        pt_bounded(a, m),
        m >= 0,
    ensures
        pt_bounded(rot_s(k, a), 8 * m),
{
    reveal_with_fuel(rot_s, 21);
    if k < 10 {
        assert(pt_bounded(rot_s(k, a), 8 * m));
    } else {
        assert(pt_bounded(rot_s(k, a), 8 * m));
    }
}

// Bound for additions inside `pt_mul_z`: comfortably below i64::MAX / 2.
pub const RING_OP_LIMIT: i64 = 0x1000_0000_0000_0000;

// Bound for the input of `pt_rot`: 19 doublings stay below RING_OP_LIMIT.
pub const ROT_IN_LIMIT: i64 = 0x100_0000_0000;

impl Pt {
    pub open spec fn bounded(self, m: int) -> bool {
        pt_bounded(self@, m)
    }

    pub fn zero() -> (r: Pt)
        ensures
            r@ == pt_zero_s(),
    {
        Pt { c0: 0, c1: 0, c2: 0, c3: 0, c4: 0, c5: 0, c6: 0, c7: 0 }
    }

    pub fn pt_add(&self, o: &Pt) -> (r: Pt)
        requires
            self.bounded(RING_OP_LIMIT as int),
            o.bounded(RING_OP_LIMIT as int),
        ensures
            r@ == pt_add_s(self@, o@),
    {
        Pt {
            c0: self.c0 + o.c0,
            c1: self.c1 + o.c1,
            c2: self.c2 + o.c2,
            c3: self.c3 + o.c3,
            c4: self.c4 + o.c4,
            c5: self.c5 + o.c5,
            c6: self.c6 + o.c6,
            c7: self.c7 + o.c7,
        }
    }

    pub fn pt_sub(&self, o: &Pt) -> (r: Pt)
        requires
            self.bounded(RING_OP_LIMIT as int),
            o.bounded(RING_OP_LIMIT as int),
        ensures
            r@ == pt_sub_s(self@, o@),
    {
        Pt {
            c0: self.c0 - o.c0,
            c1: self.c1 - o.c1,
            c2: self.c2 - o.c2,
            c3: self.c3 - o.c3,
            c4: self.c4 - o.c4,
            c5: self.c5 - o.c5,
            c6: self.c6 - o.c6,
            c7: self.c7 - o.c7,
        }
    }

    pub fn pt_mul_z(&self) -> (r: Pt)
        requires
            self.bounded(RING_OP_LIMIT as int),
        ensures
            r@ == mul_z_s(self@),
    {
        Pt {
            c0: -self.c7,
            c1: self.c0,
            c2: self.c1 + self.c7,
            c3: self.c2,
            c4: self.c3 - self.c7,
            c5: self.c4,
            c6: self.c5 + self.c7,
            c7: self.c6,
        }
    }

    /// Rotation by k * 18 degrees, computed by repeated multiplication by z.
    pub fn pt_rot(&self, k: usize) -> (r: Pt)
        requires
            k < 20,
            self.bounded(ROT_IN_LIMIT as int),
        ensures
            r@ == rot_s(k as nat, self@),
    {
        let mut acc: Pt = *self;
        let mut i: usize = 0;
        while i < k
            invariant
                i <= k,
                k < 20,
                self.bounded(ROT_IN_LIMIT as int),
                acc@ == rot_s(i as nat, self@),
            decreases k - i,
        {
            proof {
                lemma_rot_bounded(i as nat, self@, ROT_IN_LIMIT as int);
            }
            acc = acc.pt_mul_z();
            i = i + 1;
        }
        acc
    }
}

} // verus!
