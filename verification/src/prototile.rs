//! The two Penrose prototiles and their fixed tables.
//!
//! Each prototile is a rhombus with leg length 2 (in ring units), centred at
//! the origin with its diagonals on the coordinate axes.  Its four vertices
//! are listed in the order left, top, right, bottom, and side i is the edge
//! from vertex i to vertex (i + 1) % 4, so the sides are, in order, the
//! upper-left, upper-right, lower-right and lower-left edges.
//!
//! The fat rhombus has interior angle 72 degrees at its left and right
//! vertices, the skinny one 36 degrees, so the upper-left side of the fat
//! rhombus points at 36 degrees (direction exponent 2, in steps of 18
//! degrees) and that of the skinny rhombus at 18 degrees (exponent 1).
//!
//! The matching rule table says, for a tile of one type receiving a
//! neighbour of another type on a given side, which side of the neighbour
//! becomes the touching side.  The table is fixed data; it happens to be an
//! involution, which `lemma_matching_involution` records.

use vstd::prelude::*;
use crate::ring::{Pt, SPt, pt_sub_s, rot_s, pt_bounded};

verus! {

/// The two Penrose rhombus prototiles.
#[derive(Clone, Copy, PartialEq, Eq, Structural, Debug)]
pub enum PrototileType {
    Fat,
    Skinny,
}

impl Default for PrototileType {
    fn default() -> (r: Self)
        ensures
            r == PrototileType::Fat,
    {
        PrototileType::Fat
    }
}

/// Both prototile types, in the fixed enumeration order.
pub fn all_prototile_types() -> (r: Vec<PrototileType>)
    ensures
        r@ == seq![PrototileType::Fat, PrototileType::Skinny],
{
    let mut v: Vec<PrototileType> = Vec::new();
    v.push(PrototileType::Fat);
    v.push(PrototileType::Skinny);
    proof {
        assert(v@ =~= seq![PrototileType::Fat, PrototileType::Skinny]);
    }
    v
}

/// The vertex of a prototile, in local space, as a ring point.
pub open spec fn base_pt_s(kind: PrototileType, i: int) -> SPt {
    match kind {
        PrototileType::Fat => {
            if i == 0 {
                SPt { c0: -1, c1: 0, c2: 0, c3: 0, c4: -1, c5: 0, c6: 1, c7: 0 }
            } else if i == 1 {
                SPt { c0: -1, c1: 0, c2: 2, c3: 0, c4: -1, c5: 0, c6: 1, c7: 0 }
            } else if i == 2 {
                SPt { c0: 1, c1: 0, c2: 0, c3: 0, c4: 1, c5: 0, c6: -1, c7: 0 }
            } else {
                SPt { c0: 1, c1: 0, c2: -2, c3: 0, c4: 1, c5: 0, c6: -1, c7: 0 }
            }
        },
        PrototileType::Skinny => {
            if i == 0 {
                SPt { c0: 0, c1: -2, c2: 0, c3: 1, c4: 0, c5: -1, c6: 0, c7: 1 }
            } else if i == 1 {
                SPt { c0: 0, c1: 0, c2: 0, c3: 1, c4: 0, c5: -1, c6: 0, c7: 1 }
            } else if i == 2 {
                SPt { c0: 0, c1: 2, c2: 0, c3: -1, c4: 0, c5: 1, c6: 0, c7: -1 }
            } else {
                SPt { c0: 0, c1: 0, c2: 0, c3: -1, c4: 0, c5: 1, c6: 0, c7: -1 }
            }
        },
    }
}

/// The direction exponent of side s: side s of the prototile, followed from
/// vertex s to vertex s + 1, points at dir * 18 degrees.
pub open spec fn side_dir_s(kind: PrototileType, s: int) -> int {
    match kind {
        PrototileType::Fat => {
            if s == 0 {
                2
            } else if s == 1 {
                18
            } else if s == 2 {
                12
            } else {
                8
            }
        },
        PrototileType::Skinny => {
            if s == 0 {
                1
            } else if s == 1 {
                19
            } else if s == 2 {
                11
            } else {
                9
            }
        },
    }
}

/// A vector of length 2 pointing along the positive real axis.
pub open spec fn two_s() -> SPt {
    SPt { c0: 2, c1: 0, c2: 0, c3: 0, c4: 0, c5: 0, c6: 0, c7: 0 }
}

/// The fixed matching rule table: a tile of type `on` receiving a neighbour
/// of type `other` on side `side` touches it with side `matching_s(..)` of
/// the neighbour.
pub open spec fn matching_s(on: PrototileType, side: int, other: PrototileType) -> int {
    match on {
        PrototileType::Fat => match other {
            PrototileType::Fat => {
                if side == 0 {
                    3
                } else if side == 1 {
                    2
                } else if side == 2 {
                    1
                } else {
                    0
                }
            },
            PrototileType::Skinny => {
                if side == 0 {
                    0
                } else if side == 1 {
                    2
                } else if side == 2 {
                    3
                } else {
                    1
                }
            },
        },
        PrototileType::Skinny => match other {
            PrototileType::Fat => {
                if side == 0 {
                    0
                } else if side == 1 {
                    3
                } else if side == 2 {
                    1
                } else {
                    2
                }
            },
            PrototileType::Skinny => {
                if side == 0 {
                    1
                } else if side == 1 {
                    0
                } else if side == 2 {
                    3
                } else {
                    2
                }
            },
        },
    }
}

/// The matching table always answers with a side index.
pub proof fn lemma_matching_range(on: PrototileType, side: int, other: PrototileType)
    ensures
        0 <= matching_s(on, side, other) < 4,
{
}

/// The matching rule table is an involution: reading the rule from the
/// neighbour's perspective with the touching side gives back the original
/// side.
pub proof fn lemma_matching_involution(on: PrototileType, side: int, other: PrototileType)
    requires
        0 <= side < 4,
    ensures
        matching_s(other, matching_s(on, side, other), on) == side,
{
}

/// Each side of a prototile, as a vector, is the unit-direction vector of
/// its direction exponent scaled to leg length 2.
pub proof fn lemma_side_vector(kind: PrototileType, s: int)
    requires
        0 <= s < 4,
    ensures
        pt_sub_s(base_pt_s(kind, (s + 1) % 4), base_pt_s(kind, s)) == rot_s(
            side_dir_s(kind, s) as nat,
            two_s(),
        ),
{
    reveal_with_fuel(rot_s, 20);
}

/// The four vertices of a prototile are pairwise distinct.
pub proof fn lemma_base_points_distinct(kind: PrototileType, i: int, j: int)
    requires
        0 <= i < 4,
        0 <= j < 4,
        i != j,
    ensures
        base_pt_s(kind, i) != base_pt_s(kind, j),
{
}

/// Every prototile vertex has coordinates in [-2, 2].
pub proof fn lemma_base_points_bounded(kind: PrototileType, i: int)
    ensures
        pt_bounded(base_pt_s(kind, i), 2),
{
}

impl PrototileType {
    /// The vertex of this prototile, in local space.
    pub fn base_point(&self, i: usize) -> (r: Pt)
        requires
            i < 4,
        ensures
            r@ == base_pt_s(*self, i as int),
    {
        match self {
            PrototileType::Fat => {
                if i == 0 {
                    Pt { c0: -1, c1: 0, c2: 0, c3: 0, c4: -1, c5: 0, c6: 1, c7: 0 }
                } else if i == 1 {
                    Pt { c0: -1, c1: 0, c2: 2, c3: 0, c4: -1, c5: 0, c6: 1, c7: 0 }
                } else if i == 2 {
                    Pt { c0: 1, c1: 0, c2: 0, c3: 0, c4: 1, c5: 0, c6: -1, c7: 0 }
                } else {
                    Pt { c0: 1, c1: 0, c2: -2, c3: 0, c4: 1, c5: 0, c6: -1, c7: 0 }
                }
            },
            PrototileType::Skinny => {
                if i == 0 {
                    Pt { c0: 0, c1: -2, c2: 0, c3: 1, c4: 0, c5: -1, c6: 0, c7: 1 }
                } else if i == 1 {
                    Pt { c0: 0, c1: 0, c2: 0, c3: 1, c4: 0, c5: -1, c6: 0, c7: 1 }
                } else if i == 2 {
                    Pt { c0: 0, c1: 2, c2: 0, c3: -1, c4: 0, c5: 1, c6: 0, c7: -1 }
                } else {
                    Pt { c0: 0, c1: 0, c2: 0, c3: -1, c4: 0, c5: 1, c6: 0, c7: -1 }
                }
            },
        }
    }

    /// The direction exponent of side s of this prototile.
    pub fn side_dir(&self, s: usize) -> (r: usize)
        requires
            s < 4,
        ensures
            r as int == side_dir_s(*self, s as int),
            r < 20,
    {
        match self {
            PrototileType::Fat => {
                if s == 0 {
                    2
                } else if s == 1 {
                    18
                } else if s == 2 {
                    12
                } else {
                    8
                }
            },
            PrototileType::Skinny => {
                if s == 0 {
                    1
                } else if s == 1 {
                    19
                } else if s == 2 {
                    11
                } else {
                    9
                }
            },
        }
    }
}

/// Which side of a new tile of type `other` touches a tile of type `on` when
/// attached on its side `side`.
pub fn matching_side(on: PrototileType, side: usize, other: PrototileType) -> (r: usize)
    requires
        side < 4,
    ensures
        r as int == matching_s(on, side as int, other),
        r < 4,
{
    match on {
        PrototileType::Fat => match other {
            PrototileType::Fat => {
                if side == 0 {
                    3
                } else if side == 1 {
                    2
                } else if side == 2 {
                    1
                } else {
                    0
                }
            },
            PrototileType::Skinny => {
                if side == 0 {
                    0
                } else if side == 1 {
                    2
                } else if side == 2 {
                    3
                } else {
                    1
                }
            },
        },
        PrototileType::Skinny => match other {
            PrototileType::Fat => {
                if side == 0 {
                    0
                } else if side == 1 {
                    3
                } else if side == 2 {
                    1
                } else {
                    2
                }
            },
            PrototileType::Skinny => {
                if side == 0 {
                    1
                } else if side == 1 {
                    0
                } else if side == 2 {
                    3
                } else {
                    2
                }
            },
        },
    }
}

} // verus!
