//! The mathematical model of the tiling engine.
//!
//! A tiling state is a sequence of placed tiles; handle h names the tile at
//! position h.  The edge records of a state, the legality of attaching a new
//! tile, and the effect of one placement record are all spec functions of
//! the state, so the whole placement history is a deterministic function of
//! the record sequence (`run_log_s`).  The engine's executable operations
//! are specified against these functions, and the laws at the end of this
//! module (no overlap, matching rules at settled edges, deterministic
//! replay, undo round trip) are proved of every state that a record
//! sequence can reach.

use vstd::prelude::*;
use crate::ring::pt_bounded;
use crate::prototile::{
    PrototileType, base_pt_s, matching_s, lemma_matching_involution, lemma_matching_range,
    lemma_base_points_distinct,
};
use crate::xform::{
    Xform, SXf, compose_s, conn_s, identity_s, xf_wf, lemma_apply_compose,
    lemma_connection_maps_side,
};
use crate::collision::{
    tiles_collide_s, world_pt_s, lemma_collide_symmetric, TRANS_LIMIT,
};
use crate::ring::lemma_rot_injective;
use crate::edge::{SEdge, EdgeRecord, edge_key_s, lemma_edge_key_symmetric, lemma_edge_key_endpoints};

verus! {

/// One entry of the placement history: a root tile, or a tile attached on a
/// side of an earlier tile.
#[derive(Clone, Copy, PartialEq, Eq, Structural, Debug)]
pub enum PlacementRecord {
    Root { kind: PrototileType },
    Attached { on: usize, side: usize, kind: PrototileType },
}

/// One placed tile: its prototile type and its accumulated world transform.
#[derive(Clone, Copy, PartialEq, Eq, Structural, Debug)]
pub struct TileInstance {
    pub kind: PrototileType,
    pub xf: Xform,
}

/// The mathematical value of a placed tile.
pub ghost struct STile {
    pub kind: PrototileType,
    pub xf: SXf,
}

impl View for TileInstance {
    type V = STile;

    open spec fn view(&self) -> STile {
        STile { kind: self.kind, xf: self.xf@ }
    }
}

/// The mathematical state of a tile vector: the tiles, in handle order.
pub open spec fn tiles_model(v: Seq<TileInstance>) -> Seq<STile> {
    Seq::new(v.len() as nat, |i: int| v[i]@)
}

/// A tile whose transform is a rotation exponent in range and a translation
/// within the fixed coordinate budget.
pub open spec fn tile_ok(t: STile) -> bool {
    &&& xf_wf(t.xf)
    &&& pt_bounded(t.xf.t, TRANS_LIMIT as int)
}

/// The canonical key of the world-space edge of side s of a placed tile.
pub open spec fn tile_edge_key_s(t: STile, s: int) -> SEdge {
    edge_key_s(world_pt_s(t.kind, t.xf, s), world_pt_s(t.kind, t.xf, (s + 1) % 4))
}

/// The record that side s of the tile at handle h contributes.
pub open spec fn rec_of(t: STile, h: int, s: int) -> EdgeRecord {
    EdgeRecord { tile: h as usize, side: s as usize, kind: t.kind }
}

pub open spec fn side_rec(t: STile, h: int, s: int, k: SEdge) -> Seq<EdgeRecord> {
    if tile_edge_key_s(t, s) == k {
        seq![rec_of(t, h, s)]
    } else {
        Seq::<EdgeRecord>::empty()
    }
}

/// All records that the tile at handle h contributes to key k, in side
/// order.
pub open spec fn tile_recs_at(t: STile, h: int, k: SEdge) -> Seq<EdgeRecord> {
    side_rec(t, h, 0, k) + side_rec(t, h, 1, k) + side_rec(t, h, 2, k) + side_rec(t, h, 3, k)
}

/// All records of the state at key k, in placement order, and side order
/// within one tile.
pub open spec fn records_at(tiles: Seq<STile>, k: SEdge) -> Seq<EdgeRecord>
    decreases tiles.len(),
{
    if tiles.len() == 0 {
        Seq::<EdgeRecord>::empty()
    } else {
        records_at(tiles.drop_last(), k) + tile_recs_at(tiles.last(), tiles.len() - 1, k)
    }
}

/// Side s of the tile at handle h is used: its edge is settled by a second
/// record.
pub open spec fn side_used_s(tiles: Seq<STile>, h: int, s: int) -> bool {
    records_at(tiles, tile_edge_key_s(tiles[h], s)).len() >= 2
}

/// One side index, present exactly when that side is free.
pub open spec fn side_if_free_s(tiles: Seq<STile>, h: int, s: int) -> Seq<usize> {
    if !side_used_s(tiles, h, s) {
        seq![s as usize]
    } else {
        Seq::<usize>::empty()
    }
}

/// The free sides of the tile at handle h, in side order.
pub open spec fn free_sides_s(tiles: Seq<STile>, h: int) -> Seq<usize> {
    side_if_free_s(tiles, h, 0) + side_if_free_s(tiles, h, 1) + side_if_free_s(tiles, h, 2)
        + side_if_free_s(tiles, h, 3)
}

/// The world transform of a tile of type `kind` attached on side `side` of
/// the tile at handle `on`.
pub open spec fn attach_xf_s(tiles: Seq<STile>, on: int, side: int, kind: PrototileType) -> SXf {
    compose_s(tiles[on].xf, conn_s(tiles[on].kind, side, kind))
}

pub open spec fn attach_tile_s(
    tiles: Seq<STile>,
    on: int,
    side: int,
    kind: PrototileType,
) -> STile {
    STile { kind: kind, xf: attach_xf_s(tiles, on, side, kind) }
}

/// The candidate overlaps no live tile.
pub open spec fn no_collision_s(tiles: Seq<STile>, c: STile) -> bool {
    forall|i: int|
        0 <= i < tiles.len() ==> !tiles_collide_s(c.kind, c.xf, (#[trigger] tiles[i]).kind, tiles[i].xf)
}

/// The edge rule at side n of the candidate: an open edge, or one
/// neighbour whose own matching rule names exactly this side.
pub open spec fn edge_ok_at(tiles: Seq<STile>, c: STile, n: int) -> bool {
    let rs = records_at(tiles, tile_edge_key_s(c, n));
    ||| rs.len() == 0
    ||| (rs.len() == 1 && n == matching_s(rs[0].kind, rs[0].side as int, c.kind))
}

/// The edge rule holds at every side of the candidate other than the one
/// touching the anchor.
pub open spec fn edges_ok_s(tiles: Seq<STile>, c: STile, m: int) -> bool {
    forall|n: int| 0 <= n < 4 && n != m ==> #[trigger] edge_ok_at(tiles, c, n)
}

/// Attaching a tile of type `kind` on side `side` of the tile at handle
/// `on` is legal.
pub open spec fn attach_ok_s(tiles: Seq<STile>, on: int, side: int, kind: PrototileType) -> bool {
    &&& 0 <= on < tiles.len()
    &&& 0 <= side < 4
    &&& !side_used_s(tiles, on, side)
    &&& pt_bounded(attach_xf_s(tiles, on, side, kind).t, TRANS_LIMIT as int)
    &&& no_collision_s(tiles, attach_tile_s(tiles, on, side, kind))
    &&& edges_ok_s(
        tiles,
        attach_tile_s(tiles, on, side, kind),
        matching_s(tiles[on].kind, side, kind),
    )
}

/// One candidate pair, present exactly when it is legal.
pub open spec fn pair_if_s(
    tiles: Seq<STile>,
    on: int,
    s: int,
    k: PrototileType,
) -> Seq<(usize, PrototileType)> {
    if attach_ok_s(tiles, on, s, k) {
        seq![(s as usize, k)]
    } else {
        Seq::<(usize, PrototileType)>::empty()
    }
}

/// The legal candidate set for attaching to the tile at handle `on`, in
/// the fixed order: side-major, fat before skinny.
pub open spec fn legal_pairs_s(tiles: Seq<STile>, on: int) -> Seq<(usize, PrototileType)> {
    pair_if_s(tiles, on, 0, PrototileType::Fat) + pair_if_s(tiles, on, 0, PrototileType::Skinny)
        + pair_if_s(tiles, on, 1, PrototileType::Fat) + pair_if_s(
        tiles,
        on,
        1,
        PrototileType::Skinny,
    ) + pair_if_s(tiles, on, 2, PrototileType::Fat) + pair_if_s(
        tiles,
        on,
        2,
        PrototileType::Skinny,
    ) + pair_if_s(tiles, on, 3, PrototileType::Fat) + pair_if_s(tiles, on, 3, PrototileType::Skinny)
}

/// Every element of the legal candidate set is a legal attachment.
pub proof fn lemma_legal_pairs_elem(tiles: Seq<STile>, on: int, i: int)
    requires
        0 <= i < legal_pairs_s(tiles, on).len(),
    ensures
        legal_pairs_s(tiles, on)[i].0 < 4,
        attach_ok_s(
            tiles,
            on,
            legal_pairs_s(tiles, on)[i].0 as int,
            legal_pairs_s(tiles, on)[i].1,
        ),
{
    let c0 = pair_if_s(tiles, on, 0, PrototileType::Fat);
    let c1 = pair_if_s(tiles, on, 0, PrototileType::Skinny);
    let c2 = pair_if_s(tiles, on, 1, PrototileType::Fat);
    let c3 = pair_if_s(tiles, on, 1, PrototileType::Skinny);
    let c4 = pair_if_s(tiles, on, 2, PrototileType::Fat);
    let c5 = pair_if_s(tiles, on, 2, PrototileType::Skinny);
    let c6 = pair_if_s(tiles, on, 3, PrototileType::Fat);
    let c7 = pair_if_s(tiles, on, 3, PrototileType::Skinny);
    let l0 = c0.len();
    let l1 = l0 + c1.len();
    let l2 = l1 + c2.len();
    let l3 = l2 + c3.len();
    let l4 = l3 + c4.len();
    let l5 = l4 + c5.len();
    let l6 = l5 + c6.len();
    assert(legal_pairs_s(tiles, on) == c0 + c1 + c2 + c3 + c4 + c5 + c6 + c7);
    if i < l0 {
        assert(legal_pairs_s(tiles, on)[i] == c0[0]);
    } else if i < l1 {
        assert(legal_pairs_s(tiles, on)[i] == c1[0]);
    } else if i < l2 {
        assert(legal_pairs_s(tiles, on)[i] == c2[0]);
    } else if i < l3 {
        assert(legal_pairs_s(tiles, on)[i] == c3[0]);
    } else if i < l4 {
        assert(legal_pairs_s(tiles, on)[i] == c4[0]);
    } else if i < l5 {
        assert(legal_pairs_s(tiles, on)[i] == c5[0]);
    } else if i < l6 {
        assert(legal_pairs_s(tiles, on)[i] == c6[0]);
    } else {
        assert(legal_pairs_s(tiles, on)[i] == c7[0]);
    }
}

/// No tile of either type can legally attach anywhere on the tile at
/// handle h.
pub open spec fn anchor_fails_s(tiles: Seq<STile>, h: int) -> bool {
    forall|s: int, k: PrototileType| 0 <= s < 4 ==> !(#[trigger] attach_ok_s(tiles, h, s, k))
}

/// An empty legal candidate set means every attachment to that anchor
/// fails.
pub proof fn lemma_empty_pairs_anchor_fails(tiles: Seq<STile>, h: int)
    requires
        legal_pairs_s(tiles, h).len() == 0,
    ensures
        anchor_fails_s(tiles, h),
{
    assert forall|s: int, k: PrototileType| 0 <= s < 4 implies !(#[trigger] attach_ok_s(
        tiles,
        h,
        s,
        k,
    )) by {
        match k {
            PrototileType::Fat => {
                assert(pair_if_s(tiles, h, s, k).len() == 0);
            },
            PrototileType::Skinny => {
                assert(pair_if_s(tiles, h, s, k).len() == 0);
            },
        }
    }
}

/// Side s of the tile at handle h is unoccupied yet can accept no
/// prototile of either type: a local dead end.
pub open spec fn dead_side_s(tiles: Seq<STile>, h: int, s: int) -> bool {
    &&& !side_used_s(tiles, h, s)
    &&& !attach_ok_s(tiles, h, s, PrototileType::Fat)
    &&& !attach_ok_s(tiles, h, s, PrototileType::Skinny)
}

/// Some live tile has a dead side.
pub open spec fn dead_end_s(tiles: Seq<STile>) -> bool {
    exists|h: int, s: int| 0 <= h < tiles.len() && 0 <= s < 4 && #[trigger] dead_side_s(tiles, h, s)
}

/// Reasons an operation is refused.
#[derive(Clone, Copy, PartialEq, Eq, Structural, Debug)]
pub enum PlaceError {
    /// The anchor handle names no live tile.
    NoSuchTile,
    /// The side index is not in 0..4.
    SideOutOfRange,
    /// The anchor side already touches another tile.
    SideUsed,
    /// The candidate's coordinates would leave the fixed coordinate budget.
    OutOfRange,
    /// The candidate overlaps a live tile.
    Collision,
    /// An edge of the candidate violates the matching rule or is already
    /// settled by two tiles.
    EdgeConflict,
    /// A root tile can only start an empty tiling.
    NotEmpty,
}

/// The first reason, in check order, that an attachment is refused.
pub open spec fn attach_err_s(
    tiles: Seq<STile>,
    on: int,
    side: int,
    kind: PrototileType,
) -> PlaceError {
    if !(0 <= on < tiles.len()) {
        PlaceError::NoSuchTile
    } else if !(0 <= side < 4) {
        PlaceError::SideOutOfRange
    } else if side_used_s(tiles, on, side) {
        PlaceError::SideUsed
    } else if !pt_bounded(attach_xf_s(tiles, on, side, kind).t, TRANS_LIMIT as int) {
        PlaceError::OutOfRange
    } else if !no_collision_s(tiles, attach_tile_s(tiles, on, side, kind)) {
        PlaceError::Collision
    } else {
        PlaceError::EdgeConflict
    }
}

pub open spec fn root_tile_s(kind: PrototileType) -> STile {
    STile { kind: kind, xf: identity_s() }
}

/// The deterministic effect of one placement record on a state; `None`
/// when the record is not legal in that state.
pub open spec fn apply_rec_s(tiles: Seq<STile>, r: PlacementRecord) -> Option<Seq<STile>> {
    match r {
        PlacementRecord::Root { kind } => {
            if tiles.len() == 0 {
                Some(tiles.push(root_tile_s(kind)))
            } else {
                None
            }
        },
        PlacementRecord::Attached { on, side, kind } => {
            if attach_ok_s(tiles, on as int, side as int, kind) {
                Some(tiles.push(attach_tile_s(tiles, on as int, side as int, kind)))
            } else {
                None
            }
        },
    }
}

/// The state reached by running a whole record sequence from the empty
/// state; `None` when some record is not legal where it occurs.
pub open spec fn run_log_s(log: Seq<PlacementRecord>) -> Option<Seq<STile>>
    decreases log.len(),
{
    if log.len() == 0 {
        Some(Seq::<STile>::empty())
    } else {
        match run_log_s(log.drop_last()) {
            None => None,
            Some(ts) => apply_rec_s(ts, log.last()),
        }
    }
}

// ------------------------------------------------------------------
// Structural lemmas about records.
// ------------------------------------------------------------------

/// Appending a tile appends its records at every key.
pub proof fn lemma_records_push(tiles: Seq<STile>, t: STile, k: SEdge)
    ensures
        records_at(tiles.push(t), k) == records_at(tiles, k) + tile_recs_at(t, tiles.len() as int, k),
{
    assert(tiles.push(t).drop_last() =~= tiles);
    assert(tiles.push(t).last() == t);
}

/// Every record of a state names a live tile, a side in range, the tile's
/// own type, and the key of that very side.
pub proof fn lemma_records_valid(tiles: Seq<STile>, k: SEdge)
    requires
        tiles.len() <= usize::MAX,
    ensures
        forall|idx: int|
            0 <= idx < records_at(tiles, k).len() ==> {
                let r = #[trigger] records_at(tiles, k)[idx];
                &&& r.tile < tiles.len()
                &&& r.side < 4
                &&& r.kind == tiles[r.tile as int].kind
                &&& tile_edge_key_s(tiles[r.tile as int], r.side as int) == k
                &&& r == rec_of(tiles[r.tile as int], r.tile as int, r.side as int)
            },
    decreases tiles.len(),
{
    if tiles.len() > 0 {
        lemma_records_valid(tiles.drop_last(), k);
        let front = records_at(tiles.drop_last(), k);
        let t = tiles.last();
        let h = tiles.len() - 1;
        assert forall|idx: int| 0 <= idx < records_at(tiles, k).len() implies {
            let r = #[trigger] records_at(tiles, k)[idx];
            &&& r.tile < tiles.len()
            &&& r.side < 4
            &&& r.kind == tiles[r.tile as int].kind
            &&& tile_edge_key_s(tiles[r.tile as int], r.side as int) == k
            &&& r == rec_of(tiles[r.tile as int], r.tile as int, r.side as int)
        } by {
            if idx < front.len() {
                assert(records_at(tiles, k)[idx] == front[idx]);
                let r = front[idx];
                assert(tiles.drop_last()[r.tile as int] == tiles[r.tile as int]);
            } else {
                let r = records_at(tiles, k)[idx];
                let i2 = idx - front.len();
                let a0 = side_rec(t, h, 0, k);
                let a1 = side_rec(t, h, 1, k);
                let a2 = side_rec(t, h, 2, k);
                let a3 = side_rec(t, h, 3, k);
                assert(r == (a0 + a1 + a2 + a3)[i2]);
                assert(tiles[h] == t);
                if i2 < a0.len() {
                    assert(r == rec_of(t, h, 0));
                    assert(tile_edge_key_s(t, 0) == k);
                } else if i2 < a0.len() + a1.len() {
                    assert(r == rec_of(t, h, 1));
                    assert(tile_edge_key_s(t, 1) == k);
                } else if i2 < a0.len() + a1.len() + a2.len() {
                    assert(r == rec_of(t, h, 2));
                    assert(tile_edge_key_s(t, 2) == k);
                } else {
                    assert(r == rec_of(t, h, 3));
                    assert(tile_edge_key_s(t, 3) == k);
                }
            }
        }
    }
}

/// Side s of the tile at handle h contributes its own record to the key of
/// its own edge.
pub proof fn lemma_own_record(tiles: Seq<STile>, h: int, s: int)
    requires
        0 <= h < tiles.len(),
        0 <= s < 4,
    ensures
        records_at(tiles, tile_edge_key_s(tiles[h], s)).contains(rec_of(tiles[h], h, s)),
    decreases tiles.len(),
{
    let k = tile_edge_key_s(tiles[h], s);
    if h == tiles.len() - 1 {
        let part = side_rec(tiles.last(), h, s, k);
        assert(part == seq![rec_of(tiles[h], h, s)]);
        assert(tile_recs_at(tiles.last(), h, k).contains(rec_of(tiles[h], h, s))) by {
            let tr = tile_recs_at(tiles.last(), h, k);
            if s == 0 {
                assert(tr[0] == rec_of(tiles[h], h, s));
            } else if s == 1 {
                assert(tr[side_rec(tiles.last(), h, 0, k).len() as int] == rec_of(tiles[h], h, s));
            } else if s == 2 {
                assert(tr[(side_rec(tiles.last(), h, 0, k) + side_rec(tiles.last(), h, 1, k)).len() as int]
                    == rec_of(tiles[h], h, s));
            } else {
                assert(tr[(side_rec(tiles.last(), h, 0, k) + side_rec(tiles.last(), h, 1, k)
                    + side_rec(tiles.last(), h, 2, k)).len() as int] == rec_of(tiles[h], h, s));
            }
        }
        let tr = tile_recs_at(tiles.last(), h, k);
        let i = choose|i: int| 0 <= i < tr.len() && tr[i] == rec_of(tiles[h], h, s);
        assert(records_at(tiles, k)[records_at(tiles.drop_last(), k).len() + i] == rec_of(
            tiles[h],
            h,
            s,
        ));
    } else {
        lemma_own_record(tiles.drop_last(), h, s);
        assert(tiles.drop_last()[h] == tiles[h]);
        let front = records_at(tiles.drop_last(), k);
        let i = choose|i: int| 0 <= i < front.len() && front[i] == rec_of(tiles[h], h, s);
        assert(records_at(tiles, k)[i] == rec_of(tiles[h], h, s));
    }
}

/// A rigid placement is injective on points.
proof fn lemma_world_pt_injective(t: STile, i: int, j: int)
    requires
        xf_wf(t.xf),
        0 <= i < 4,
        0 <= j < 4,
        i != j,
    ensures
        world_pt_s(t.kind, t.xf, i) != world_pt_s(t.kind, t.xf, j),
{
    lemma_base_points_distinct(t.kind, i, j);
    if world_pt_s(t.kind, t.xf, i) == world_pt_s(t.kind, t.xf, j) {
        lemma_rot_injective(t.xf.k as nat, base_pt_s(t.kind, i), base_pt_s(t.kind, j));
    }
}

/// The four edge keys of one placed tile are pairwise distinct.
pub proof fn lemma_tile_edges_distinct(t: STile, s1: int, s2: int)
    requires
        xf_wf(t.xf),
        0 <= s1 < 4,
        0 <= s2 < 4,
        s1 != s2,
    ensures
        tile_edge_key_s(t, s1) != tile_edge_key_s(t, s2),
{
    if tile_edge_key_s(t, s1) == tile_edge_key_s(t, s2) {
        lemma_edge_key_endpoints(
            world_pt_s(t.kind, t.xf, s1),
            world_pt_s(t.kind, t.xf, (s1 + 1) % 4),
            world_pt_s(t.kind, t.xf, s2),
            world_pt_s(t.kind, t.xf, (s2 + 1) % 4),
        );
        assert forall|i: int, j: int|
            0 <= i < 4 && 0 <= j < 4 && i != j implies #[trigger] world_pt_s(t.kind, t.xf, i)
            != #[trigger] world_pt_s(t.kind, t.xf, j) by {
            lemma_world_pt_injective(t, i, j);
        }
    }
}

/// The matching side of an attached tile lands exactly on the anchor's
/// chosen side: the two keys coincide.
pub proof fn lemma_attach_shared_edge(tiles: Seq<STile>, on: int, side: int, kind: PrototileType)
    requires
        0 <= on < tiles.len(),
        0 <= side < 4,
        xf_wf(tiles[on].xf),
    ensures
        tile_edge_key_s(
            attach_tile_s(tiles, on, side, kind),
            matching_s(tiles[on].kind, side, kind),
        ) == tile_edge_key_s(tiles[on], side),
{
    let a = tiles[on];
    let m = matching_s(a.kind, side, kind);
    let c = attach_tile_s(tiles, on, side, kind);
    let cn = conn_s(a.kind, side, kind);
    lemma_matching_range(a.kind, side, kind);
    lemma_connection_maps_side(a.kind, side, kind);
    lemma_apply_compose(a.xf, cn, base_pt_s(kind, m));
    lemma_apply_compose(a.xf, cn, base_pt_s(kind, (m + 1) % 4));
    assert(world_pt_s(c.kind, c.xf, m) == world_pt_s(a.kind, a.xf, (side + 1) % 4));
    assert(world_pt_s(c.kind, c.xf, (m + 1) % 4) == world_pt_s(a.kind, a.xf, side));
    lemma_edge_key_symmetric(
        world_pt_s(c.kind, c.xf, m),
        world_pt_s(c.kind, c.xf, (m + 1) % 4),
    );
}

// ------------------------------------------------------------------
// Laws of every reachable state.
// ------------------------------------------------------------------

/// Every tile of a reachable state is well formed.
pub proof fn lemma_run_tiles_ok(log: Seq<PlacementRecord>, ts: Seq<STile>)
    requires
        run_log_s(log) == Some(ts),
    ensures
        forall|i: int| 0 <= i < ts.len() ==> tile_ok(#[trigger] ts[i]),
    decreases log.len(),
{
    if log.len() > 0 {
        let ts0 = run_log_s(log.drop_last()).unwrap();
        lemma_run_tiles_ok(log.drop_last(), ts0);
        assert forall|i: int| 0 <= i < ts.len() implies tile_ok(#[trigger] ts[i]) by {
            if i < ts0.len() {
                assert(ts[i] == ts0[i]);
            } else {
                assert(ts == ts0.push(ts.last()));
            }
        }
    }
}

/// A reachable state has exactly one tile per record consumed.
pub proof fn lemma_run_len(log: Seq<PlacementRecord>, ts: Seq<STile>)
    requires
        run_log_s(log) == Some(ts),
    ensures
        ts.len() == log.len(),
    decreases log.len(),
{
    if log.len() > 0 {
        lemma_run_len(log.drop_last(), run_log_s(log.drop_last()).unwrap());
    }
}

/// Replay is deterministic, record for record: the state after any prefix
/// of a runnable log is exactly the corresponding prefix of the final
/// state, with the same handles, types and transforms.
pub proof fn lemma_run_log_prefix(log: Seq<PlacementRecord>, ts: Seq<STile>, j: int)
    requires
        run_log_s(log) == Some(ts),
        0 <= j <= log.len(),
    ensures
        ts.len() == log.len(),
        run_log_s(log.take(j)) == Some(ts.take(j)),
    decreases log.len(),
{
    lemma_run_len(log, ts);
    if log.len() == 0 {
        assert(log.take(j) =~= log);
        assert(ts.take(j) =~= ts);
    } else if j == log.len() {
        assert(log.take(j) =~= log);
        assert(ts.take(j) =~= ts);
    } else {
        let ts0 = run_log_s(log.drop_last()).unwrap();
        assert(ts == ts0.push(ts.last()));
        assert(ts0 =~= ts.drop_last());
        lemma_run_log_prefix(log.drop_last(), ts0, j);
        assert(log.drop_last().take(j) =~= log.take(j));
        assert(ts0.take(j) =~= ts.take(j));
    }
}

/// Undoing the last placement and replaying the popped record restores the
/// state exactly.
pub proof fn lemma_undo_replay_restores(log: Seq<PlacementRecord>, ts: Seq<STile>)
    requires
        run_log_s(log) == Some(ts),
        log.len() > 0,
    ensures
        ts.len() == log.len(),
        run_log_s(log.drop_last()) == Some(ts.drop_last()),
        apply_rec_s(ts.drop_last(), log.last()) == Some(ts),
{
    lemma_run_len(log, ts);
    let ts0 = run_log_s(log.drop_last()).unwrap();
    assert(ts == ts0.push(ts.last()));
    assert(ts0 =~= ts.drop_last());
}

/// No two distinct tiles of a reachable state overlap beyond shared-edge
/// contact.
pub proof fn lemma_placed_tiles_disjoint(log: Seq<PlacementRecord>, ts: Seq<STile>)
    requires
        run_log_s(log) == Some(ts),
    ensures
        forall|i: int, j: int|
            0 <= i < ts.len() && 0 <= j < ts.len() && i != j ==> !tiles_collide_s(
                (#[trigger] ts[i]).kind,
                ts[i].xf,
                (#[trigger] ts[j]).kind,
                ts[j].xf,
            ),
    decreases log.len(),
{
    if log.len() > 0 {
        let ts0 = run_log_s(log.drop_last()).unwrap();
        lemma_placed_tiles_disjoint(log.drop_last(), ts0);
        let c = ts.last();
        let n = ts0.len() as int;
        assert(ts == ts0.push(c));
        assert forall|i: int, j: int|
            0 <= i < ts.len() && 0 <= j < ts.len() && i != j implies !tiles_collide_s(
            (#[trigger] ts[i]).kind,
            ts[i].xf,
            (#[trigger] ts[j]).kind,
            ts[j].xf,
        ) by {
            if i < n && j < n {
                assert(ts[i] == ts0[i]);
                assert(ts[j] == ts0[j]);
            } else {
                match log.last() {
                    PlacementRecord::Root { kind } => {
                        // A root record runs only from the empty state, so
                        // there are no two distinct tiles.
                        assert(n == 0);
                        assert(false);
                    },
                    PlacementRecord::Attached { on, side, kind } => {
                        assert(attach_ok_s(ts0, on as int, side as int, kind));
                        if i == n {
                            assert(ts[j] == ts0[j]);
                            assert(!tiles_collide_s(c.kind, c.xf, ts0[j].kind, ts0[j].xf));
                        } else {
                            assert(ts[i] == ts0[i]);
                            assert(!tiles_collide_s(c.kind, c.xf, ts0[i].kind, ts0[i].xf));
                            lemma_collide_symmetric(c.kind, c.xf, ts0[i].kind, ts0[i].xf);
                        }
                    },
                }
            }
        }
    }
}

/// At every edge settled by exactly two records, the two records satisfy
/// the matching rule table in both directions.
pub open spec fn edge_records_matched(tiles: Seq<STile>) -> bool {
    forall|k: SEdge| {
        let rs = #[trigger] records_at(tiles, k);
        rs.len() <= 2 && (rs.len() == 2 ==> {
            &&& rs[1].side as int == matching_s(rs[0].kind, rs[0].side as int, rs[1].kind)
            &&& rs[0].side as int == matching_s(rs[1].kind, rs[1].side as int, rs[0].kind)
        })
    }
}

/// One legal step keeps the matching rule at one key.
#[verifier::rlimit(60)]
proof fn lemma_step_key_matched(
    ts0: Seq<STile>,
    rec: PlacementRecord,
    ts: Seq<STile>,
    k: SEdge,
)
    requires
        apply_rec_s(ts0, rec) == Some(ts),
        edge_records_matched(ts0),
        forall|i: int| 0 <= i < ts0.len() ==> tile_ok(#[trigger] ts0[i]),
        tile_ok(ts.last()),
        ts0.len() < usize::MAX,
    ensures
        records_at(ts, k).len() <= 2,
        records_at(ts, k).len() == 2 ==> {
            let rs = records_at(ts, k);
            &&& rs[1].side as int == matching_s(rs[0].kind, rs[0].side as int, rs[1].kind)
            &&& rs[0].side as int == matching_s(rs[1].kind, rs[1].side as int, rs[0].kind)
        },
{
    let c = ts.last();
    let n = ts0.len() as int;
    assert(ts == ts0.push(c));
    lemma_records_push(ts0, c, k);
    let old_rs = records_at(ts0, k);
    let tr = tile_recs_at(c, n, k);
    assert(records_at(ts, k) == old_rs + tr);
    assert(old_rs.len() <= 2);
    // The new tile contributes at most one record per key: its four edge
    // keys are pairwise distinct.
    if tr.len() > 1 {
        assert forall|s1: int, s2: int|
            0 <= s1 < 4 && 0 <= s2 < 4 && s1 != s2 implies !(tile_edge_key_s(c, s1) == k
            && tile_edge_key_s(c, s2) == k) by {
            lemma_tile_edges_distinct(c, s1, s2);
        }
        assert(false);
    }
    if tr.len() == 1 {
        assert(exists|s2: int| 0 <= s2 < 4 && tile_edge_key_s(c, s2) == k) by {
            if side_rec(c, n, 0, k).len() > 0 {
                assert(tile_edge_key_s(c, 0) == k);
            } else if side_rec(c, n, 1, k).len() > 0 {
                assert(tile_edge_key_s(c, 1) == k);
            } else if side_rec(c, n, 2, k).len() > 0 {
                assert(tile_edge_key_s(c, 2) == k);
            } else {
                assert(tile_edge_key_s(c, 3) == k);
            }
        }
        let s = choose|s: int| 0 <= s < 4 && tile_edge_key_s(c, s) == k;
        assert(tr == seq![rec_of(c, n, s)]) by {
            assert forall|s2: int| 0 <= s2 < 4 && s2 != s implies side_rec(c, n, s2, k).len()
                == 0 by {
                lemma_tile_edges_distinct(c, s, s2);
            }
        }
        match rec {
            PlacementRecord::Root { kind } => {
                assert(n == 0);
                assert(old_rs.len() == 0);
            },
            PlacementRecord::Attached { on, side, kind } => {
                assert(attach_ok_s(ts0, on as int, side as int, kind));
                let m = matching_s(ts0[on as int].kind, side as int, kind);
                lemma_matching_range(ts0[on as int].kind, side as int, kind);
                if s == m {
                    // The touching side: the anchor's record is the single
                    // existing one, and the rule holds by the construction
                    // of the matching side.
                    lemma_attach_shared_edge(ts0, on as int, side as int, kind);
                    assert(k == tile_edge_key_s(ts0[on as int], side as int));
                    assert(!side_used_s(ts0, on as int, side as int));
                    lemma_own_record(ts0, on as int, side as int);
                    let own = rec_of(ts0[on as int], on as int, side as int);
                    assert(old_rs.contains(own));
                    assert(old_rs.len() == 1);
                    assert(old_rs[0] == own);
                    lemma_matching_involution(ts0[on as int].kind, side as int, kind);
                } else {
                    // A free side of the candidate: the edge rule of the
                    // legality check applies.
                    assert(edge_ok_at(ts0, c, s));
                    if old_rs.len() == 1 {
                        lemma_records_valid(ts0, k);
                        assert(old_rs[0].side < 4);
                        lemma_matching_involution(old_rs[0].kind, old_rs[0].side as int, kind);
                    }
                }
            },
        }
    }
}

/// Every reachable state satisfies the matching rule at all settled edges.
pub proof fn lemma_edge_records_matched(log: Seq<PlacementRecord>, ts: Seq<STile>)
    requires
        run_log_s(log) == Some(ts),
        log.len() <= usize::MAX,
    ensures
        edge_records_matched(ts),
    decreases log.len(),
{
    if log.len() == 0 {
        assert forall|k: SEdge| #[trigger] records_at(ts, k).len() == 0 by {}
    } else {
        let ts0 = run_log_s(log.drop_last()).unwrap();
        lemma_edge_records_matched(log.drop_last(), ts0);
        lemma_run_tiles_ok(log.drop_last(), ts0);
        lemma_run_tiles_ok(log, ts);
        lemma_run_len(log.drop_last(), ts0);
        assert(ts == ts0.push(ts.last()));
        assert(tile_ok(ts[ts0.len() as int]));
        assert forall|k: SEdge| {
            let rs = #[trigger] records_at(ts, k);
            rs.len() <= 2 && (rs.len() == 2 ==> {
                &&& rs[1].side as int == matching_s(rs[0].kind, rs[0].side as int, rs[1].kind)
                &&& rs[0].side as int == matching_s(rs[1].kind, rs[1].side as int, rs[0].kind)
            })
        } by {
            lemma_step_key_matched(ts0, log.last(), ts, k);
        }
    }
}

} // verus!
