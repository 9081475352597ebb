//! The placement engine: the set of placed tiles, the edge index, and the
//! append-only placement history.
//!
//! Handles are positions in the tile vector, assigned in placement order.
//! A side of a tile is "used" exactly when its edge carries a second
//! record, so side state is derived from the edge index and never stored.
//! The engine's invariant ties all three parts together: the edge index
//! holds exactly the records of the live tiles, and the live tiles are
//! exactly the state reached by running the consumed prefix of the history
//! (the whole history, outside replay mode).  Placements go through one
//! legality check, so every reachable state enjoys the laws proved in the
//! model: tiles never overlap, and settled edges obey the matching rules.

use vstd::prelude::*;
use rand::Rng;
use crate::ring::{Pt, pt_bounded};
use crate::prototile::{
    PrototileType, matching_side, matching_s, lemma_base_points_bounded, all_prototile_types,
};
use crate::xform::{Xform, identity_s, connection_transform};
use crate::collision::{tiles_collide, world_pt_s, TRANS_LIMIT};
use crate::edge::{Edge, SEdge, EdgeRecord, EdgeIndex};
use crate::model::{
    PlacementRecord, TileInstance, STile, PlaceError, tile_ok, tile_edge_key_s, records_at,
    side_used_s, side_if_free_s, free_sides_s, attach_xf_s, attach_tile_s, no_collision_s, edge_ok_at, edges_ok_s, attach_ok_s,
    attach_err_s, root_tile_s, apply_rec_s, run_log_s, rec_of, tile_recs_at, side_rec,
    lemma_records_push, lemma_records_valid, lemma_run_log_prefix, tiles_model,
    pair_if_s, legal_pairs_s, lemma_legal_pairs_elem, anchor_fails_s,
    lemma_empty_pairs_anchor_fails, dead_side_s, dead_end_s, edge_records_matched,
    lemma_placed_tiles_disjoint, lemma_edge_records_matched,
};
use crate::collision::{world_poly, tiles_collide_s};

verus! {

/// The tiling engine.
pub struct Tiling {
    pub tiles: Vec<TileInstance>,
    pub edges: EdgeIndex,
    pub history: Vec<PlacementRecord>,
    pub replay: bool,
}

impl Tiling {
    /// The mathematical state: the live tiles, in handle order.
    pub open spec fn tiles_m(self) -> Seq<STile> {
        tiles_model(self.tiles@)
    }

    /// The engine invariant.
    pub open spec fn wf(self) -> bool {
        &&& self.edges.inv()
        &&& forall|k: SEdge| #[trigger] self.edges.recs_at(k) == records_at(self.tiles_m(), k)
        &&& forall|i: int| 0 <= i < self.tiles@.len() ==> tile_ok(#[trigger] self.tiles_m()[i])
        &&& run_log_s(self.history@.take(self.tiles@.len() as int)) == Some(self.tiles_m())
        &&& self.tiles@.len() <= self.history@.len()
        &&& (!self.replay ==> self.history@.len() == self.tiles@.len())
    }

    /// An empty tiling in the randomised (non-replay) mode.
    pub fn new() -> (r: Tiling)
        ensures
            r.wf(),
            !r.replay,
            r.tiles@.len() == 0,
            r.history@.len() == 0,
    {
        let r = Tiling {
            tiles: Vec::new(),
            edges: EdgeIndex::new(),
            history: Vec::new(),
            replay: false,
        };
        proof {
            assert(r.tiles_m() =~= Seq::<STile>::empty());
            assert(r.history@.take(0) =~= Seq::<PlacementRecord>::empty());
            assert forall|k: SEdge| #[trigger] r.edges.recs_at(k) == records_at(r.tiles_m(), k) by {
                assert(records_at(r.tiles_m(), k) == Seq::<EdgeRecord>::empty());
            }
        }
        r
    }

    /// Load a previously exported history and enter replay mode: the log
    /// becomes immutable ground truth and `replay_next` consumes it.
    pub fn import_history(records: Vec<PlacementRecord>) -> (r: Tiling)
        ensures
            r.wf(),
            r.replay,
            r.tiles@.len() == 0,
            r.history@ == records@,
    {
        let r = Tiling { tiles: Vec::new(), edges: EdgeIndex::new(), history: records, replay: true };
        proof {
            assert(r.tiles_m() =~= Seq::<STile>::empty());
            assert(r.history@.take(0) =~= Seq::<PlacementRecord>::empty());
            assert forall|k: SEdge| #[trigger] r.edges.recs_at(k) == records_at(r.tiles_m(), k) by {
                assert(records_at(r.tiles_m(), k) == Seq::<EdgeRecord>::empty());
            }
        }
        r
    }

    /// The ordered placement history.
    pub fn export_history(&self) -> (r: Vec<PlacementRecord>)
        ensures
            r@ == self.history@,
    {
        let mut out: Vec<PlacementRecord> = Vec::new();
        let mut i: usize = 0;
        while i < self.history.len()
            invariant
                i <= self.history@.len(),
                out@ == self.history@.take(i as int),
            decreases self.history@.len() - i,
        {
            out.push(self.history[i]);
            proof {
                assert(out@ =~= self.history@.take(i + 1));
            }
            i = i + 1;
        }
        proof {
            assert(out@ =~= self.history@);
        }
        out
    }

    /// Whether the engine consumes a loaded history instead of choosing
    /// randomly.
    pub fn replaying(&self) -> (r: bool)
        ensures
            r == self.replay,
    {
        self.replay
    }

    /// The number of live tiles; handles are 0 .. tile_count.
    pub fn tile_count(&self) -> (r: usize)
        ensures
            r == self.tiles@.len(),
    {
        self.tiles.len()
    }

    /// The number of records in the history log.
    pub fn history_len(&self) -> (r: usize)
        ensures
            r == self.history@.len(),
    {
        self.history.len()
    }

    /// The prototile type of a live tile.
    pub fn tile_kind(&self, h: usize) -> (r: PrototileType)
        requires
            h < self.tiles@.len(),
        ensures
            r == self.tiles_m()[h as int].kind,
    {
        self.tiles[h].kind
    }

    /// The accumulated world transform of a live tile.
    pub fn tile_transform(&self, h: usize) -> (r: Xform)
        requires
            h < self.tiles@.len(),
        ensures
            r@ == self.tiles_m()[h as int].xf,
    {
        self.tiles[h].xf
    }
}

/// The world-space edge of side s of a placed tile, as a canonical key.
fn tile_edge(t: &TileInstance, s: usize) -> (e: Edge)
    requires
        s < 4,
        tile_ok(t@),
    ensures
        e@ == tile_edge_key_s(t@, s as int),
{
    proof {
        lemma_base_points_bounded(t@.kind, s as int);
        lemma_base_points_bounded(t@.kind, ((s as int) + 1) % 4);
    }
    let p1 = t.xf.apply(&t.kind.base_point(s));
    let next = if s == 3 { 0 } else { s + 1 };
    let p2 = t.xf.apply(&t.kind.base_point(next));
    Edge::new(p1, p2)
}

/// Four conditional appends, one per side, amount to appending the tile's
/// record contribution at every key.
proof fn lemma_add_four(
    r0: Seq<EdgeRecord>,
    r1: Seq<EdgeRecord>,
    r2: Seq<EdgeRecord>,
    r3: Seq<EdgeRecord>,
    r4: Seq<EdgeRecord>,
    nt: STile,
    h: int,
    k: SEdge,
)
    requires
        r1 == if tile_edge_key_s(nt, 0) == k {
            r0.push(rec_of(nt, h, 0))
        } else {
            r0
        },
        r2 == if tile_edge_key_s(nt, 1) == k {
            r1.push(rec_of(nt, h, 1))
        } else {
            r1
        },
        r3 == if tile_edge_key_s(nt, 2) == k {
            r2.push(rec_of(nt, h, 2))
        } else {
            r2
        },
        r4 == if tile_edge_key_s(nt, 3) == k {
            r3.push(rec_of(nt, h, 3))
        } else {
            r3
        },
    ensures
        r4 == r0 + tile_recs_at(nt, h, k),
{
    assert(r1 =~= r0 + side_rec(nt, h, 0, k));
    assert(r2 =~= r1 + side_rec(nt, h, 1, k));
    assert(r3 =~= r2 + side_rec(nt, h, 2, k));
    assert(r4 =~= r3 + side_rec(nt, h, 3, k));
    assert(r4 =~= r0 + tile_recs_at(nt, h, k));
}

/// Add the four edge records of a placed tile to an index that currently
/// holds exactly the records of `base`, the tile taking handle `base.len()`.
fn add_tile_records(idx: &mut EdgeIndex, t: &TileInstance, h: usize, Ghost(base): Ghost<Seq<STile>>)
    requires
        old(idx).inv(),
        tile_ok(t@),
        h as int == base.len(),
        forall|k: SEdge| #[trigger] old(idx).recs_at(k) == records_at(base, k),
    ensures
        final(idx).inv(),
        forall|k: SEdge| #[trigger] final(idx).recs_at(k) == records_at(base.push(t@), k),
{
    let ghost nt = t@;
    let ghost g0 = *idx;
    let e0 = tile_edge(t, 0);
    idx.add_rec(&e0, EdgeRecord { tile: h, side: 0, kind: t.kind });
    let ghost g1 = *idx;
    let e1 = tile_edge(t, 1);
    idx.add_rec(&e1, EdgeRecord { tile: h, side: 1, kind: t.kind });
    let ghost g2 = *idx;
    let e2 = tile_edge(t, 2);
    idx.add_rec(&e2, EdgeRecord { tile: h, side: 2, kind: t.kind });
    let ghost g3 = *idx;
    let e3 = tile_edge(t, 3);
    idx.add_rec(&e3, EdgeRecord { tile: h, side: 3, kind: t.kind });
    proof {
        assert forall|k: SEdge| #[trigger] idx.recs_at(k) == records_at(base.push(nt), k) by {
            lemma_records_push(base, nt, k);
            assert(g0.recs_at(k) == records_at(base, k));
            assert(rec_of(nt, h as int, 0) == EdgeRecord { tile: h, side: 0, kind: t.kind });
            assert(rec_of(nt, h as int, 1) == EdgeRecord { tile: h, side: 1, kind: t.kind });
            assert(rec_of(nt, h as int, 2) == EdgeRecord { tile: h, side: 2, kind: t.kind });
            assert(rec_of(nt, h as int, 3) == EdgeRecord { tile: h, side: 3, kind: t.kind });
            lemma_add_four(
                g0.recs_at(k),
                g1.recs_at(k),
                g2.recs_at(k),
                g3.recs_at(k),
                idx.recs_at(k),
                nt,
                h as int,
                k,
            );
        }
    }
}

impl Tiling {
    /// Register a checked tile: append it and index its four edges.
    fn push_tile(&mut self, kind: PrototileType, xf: Xform)
        requires
            old(self).edges.inv(),
            forall|k: SEdge| #[trigger] old(self).edges.recs_at(k) == records_at(
                old(self).tiles_m(),
                k,
            ),
            forall|i: int|
                0 <= i < old(self).tiles@.len() ==> tile_ok(#[trigger] old(self).tiles_m()[i]),
            xf.wf(),
            pt_bounded(xf@.t, TRANS_LIMIT as int),
        ensures
            final(self).edges.inv(),
            final(self).tiles@ == old(self).tiles@.push(TileInstance { kind, xf }),
            final(self).tiles_m() == old(self).tiles_m().push(STile { kind, xf: xf@ }),
            forall|k: SEdge| #[trigger] final(self).edges.recs_at(k) == records_at(
                final(self).tiles_m(),
                k,
            ),
            forall|i: int|
                0 <= i < final(self).tiles@.len() ==> tile_ok(#[trigger] final(self).tiles_m()[i]),
            final(self).history == old(self).history,
            final(self).replay == old(self).replay,
    {
        let ghost old_tiles = self.tiles_m();
        let ghost nt = STile { kind, xf: xf@ };
        let h = self.tiles.len();
        let t = TileInstance { kind, xf };
        self.tiles.push(t);
        proof {
            assert(self.tiles_m() =~= old_tiles.push(nt));
            assert(t@ == nt);
        }
        add_tile_records(&mut self.edges, &t, h, Ghost(old_tiles));
        proof {
            assert forall|i: int|
                0 <= i < self.tiles@.len() implies tile_ok(#[trigger] self.tiles_m()[i]) by {
                if i < old_tiles.len() {
                    assert(self.tiles_m()[i] == old_tiles[i]);
                }
            }
        }
    }

    /// Check every legality condition for attaching a tile of type `kind`
    /// on side `side` of the tile at handle `on`, and compute its world
    /// transform.
    fn check_attach(&self, on: usize, side: usize, kind: PrototileType) -> (r: Result<
        Xform,
        PlaceError,
    >)
        requires
            self.wf(),
        ensures
            match r {
                Ok(xf) => {
                    &&& attach_ok_s(self.tiles_m(), on as int, side as int, kind)
                    &&& xf@ == attach_xf_s(self.tiles_m(), on as int, side as int, kind)
                    &&& xf.wf()
                    &&& pt_bounded(xf@.t, TRANS_LIMIT as int)
                },
                Err(e) => {
                    &&& !attach_ok_s(self.tiles_m(), on as int, side as int, kind)
                    &&& e == attach_err_s(self.tiles_m(), on as int, side as int, kind)
                },
            },
    {
        let ghost ts = self.tiles_m();
        if on >= self.tiles.len() {
            return Err(PlaceError::NoSuchTile);
        }
        if side >= 4 {
            return Err(PlaceError::SideOutOfRange);
        }
        let anchor = self.tiles[on];
        proof {
            assert(tile_ok(ts[on as int]));
        }
        let e0 = tile_edge(&anchor, side);
        let rs0 = self.edges.records_of(&e0);
        proof {
            assert(self.edges.recs_at(e0@) == records_at(ts, e0@));
        }
        if rs0.len() >= 2 {
            proof {
                assert(anchor@ == ts[on as int]);
                assert(side_used_s(ts, on as int, side as int));
            }
            return Err(PlaceError::SideUsed);
        }
        proof {
            assert(anchor@ == ts[on as int]);
            assert(!side_used_s(ts, on as int, side as int));
        }
        let conn = connection_transform(anchor.kind, side, kind);
        let xf = anchor.xf.compose(&conn);
        proof {
            assert(xf@ == attach_xf_s(ts, on as int, side as int, kind));
        }
        let within = xf.t.c0 <= TRANS_LIMIT && xf.t.c0 >= -TRANS_LIMIT && xf.t.c1 <= TRANS_LIMIT
            && xf.t.c1 >= -TRANS_LIMIT && xf.t.c2 <= TRANS_LIMIT && xf.t.c2 >= -TRANS_LIMIT
            && xf.t.c3 <= TRANS_LIMIT && xf.t.c3 >= -TRANS_LIMIT && xf.t.c4 <= TRANS_LIMIT
            && xf.t.c4 >= -TRANS_LIMIT && xf.t.c5 <= TRANS_LIMIT && xf.t.c5 >= -TRANS_LIMIT
            && xf.t.c6 <= TRANS_LIMIT && xf.t.c6 >= -TRANS_LIMIT && xf.t.c7 <= TRANS_LIMIT
            && xf.t.c7 >= -TRANS_LIMIT;
        if !within {
            return Err(PlaceError::OutOfRange);
        }
        let ghost cand = attach_tile_s(ts, on as int, side as int, kind);
        let mut i: usize = 0;
        while i < self.tiles.len()
            invariant
                self.wf(),
                i <= self.tiles@.len(),
                on < self.tiles@.len(),
                side < 4,
                xf.wf(),
                pt_bounded(xf@.t, TRANS_LIMIT as int),
                cand == attach_tile_s(self.tiles_m(), on as int, side as int, kind),
                cand.kind == kind,
                cand.xf == xf@,
                !side_used_s(self.tiles_m(), on as int, side as int),
                forall|i2: int|
                    0 <= i2 < i ==> !crate::collision::tiles_collide_s(
                        cand.kind,
                        cand.xf,
                        (#[trigger] self.tiles_m()[i2]).kind,
                        self.tiles_m()[i2].xf,
                    ),
            decreases self.tiles@.len() - i,
        {
            let other = self.tiles[i];
            proof {
                assert(self.tiles_m()[i as int] == self.tiles@[i as int]@);
                assert(tile_ok(self.tiles_m()[i as int]));
            }
            if tiles_collide(kind, &xf, other.kind, &other.xf) {
                proof {
                    assert(crate::collision::tiles_collide_s(
                        cand.kind,
                        cand.xf,
                        self.tiles_m()[i as int].kind,
                        self.tiles_m()[i as int].xf,
                    ));
                    assert(!no_collision_s(self.tiles_m(), cand));
                }
                return Err(PlaceError::Collision);
            }
            i = i + 1;
        }
        assert(no_collision_s(ts, cand));
        let m = matching_side(anchor.kind, side, kind);
        let cand_tile = TileInstance { kind, xf };
        let mut n: usize = 0;
        while n < 4
            invariant
                self.wf(),
                n <= 4,
                on < self.tiles@.len(),
                side < 4,
                m < 4,
                m as int == matching_s(self.tiles_m()[on as int].kind, side as int, kind),
                xf.wf(),
                pt_bounded(xf@.t, TRANS_LIMIT as int),
                cand == attach_tile_s(self.tiles_m(), on as int, side as int, kind),
                cand_tile@ == cand,
                cand.kind == kind,
                cand.xf == xf@,
                tile_ok(cand),
                !side_used_s(self.tiles_m(), on as int, side as int),
                no_collision_s(self.tiles_m(), cand),
                self.tiles@.len() <= usize::MAX,
                forall|n2: int| 0 <= n2 < n && n2 != m ==> #[trigger] edge_ok_at(
                    self.tiles_m(),
                    cand,
                    n2,
                ),
            decreases 4 - n,
        {
            if n != m {
                let en = tile_edge(&cand_tile, n);
                let rsn = self.edges.records_of(&en);
                proof {
                    assert(self.edges.recs_at(en@) == records_at(self.tiles_m(), en@));
                }
                if rsn.len() >= 2 {
                    proof {
                        assert(!edge_ok_at(self.tiles_m(), cand, n as int));
                        assert(!edges_ok_s(
                            self.tiles_m(),
                            cand,
                            matching_s(self.tiles_m()[on as int].kind, side as int, kind),
                        ));
                    }
                    return Err(PlaceError::EdgeConflict);
                }
                if rsn.len() == 1 {
                    let r0 = rsn[0];
                    proof {
                        lemma_records_valid(self.tiles_m(), en@);
                        assert(records_at(self.tiles_m(), en@)[0] == r0);
                        assert(r0.side < 4);
                    }
                    let want = matching_side(r0.kind, r0.side, kind);
                    if n != want {
                        proof {
                            assert(!edge_ok_at(self.tiles_m(), cand, n as int));
                            assert(!edges_ok_s(
                                self.tiles_m(),
                                cand,
                                matching_s(self.tiles_m()[on as int].kind, side as int, kind),
                            ));
                        }
                        return Err(PlaceError::EdgeConflict);
                    }
                }
                proof {
                    assert(edge_ok_at(self.tiles_m(), cand, n as int));
                }
            }
            n = n + 1;
        }
        proof {
            assert(edges_ok_s(ts, cand, m as int));
            assert(attach_ok_s(ts, on as int, side as int, kind));
        }
        Ok(xf)
    }
}


impl Tiling {
    /// Attach a tile of type `kind` on the given side of the tile at
    /// handle `on`.
    ///
    /// The placement is performed only when every legality condition
    /// holds: the anchor exists, the side index is in range and free, the
    /// candidate stays within the coordinate budget, overlaps no live tile,
    /// and every newly introduced edge obeys the matching rule.  On
    /// success the new tile's handle (the next placement index) is
    /// returned and the record is appended to the history; otherwise the
    /// state is unchanged and the error names the first violated
    /// condition.
    pub fn place(&mut self, on: usize, side: usize, kind: PrototileType) -> (r: Result<
        usize,
        PlaceError,
    >)
        requires
            old(self).wf(),
            !old(self).replay,
        ensures
            final(self).wf(),
            !final(self).replay,
            match r {
                Ok(h) => {
                    &&& attach_ok_s(old(self).tiles_m(), on as int, side as int, kind)
                    &&& h == old(self).tiles@.len()
                    &&& final(self).tiles_m() == old(self).tiles_m().push(
                        attach_tile_s(old(self).tiles_m(), on as int, side as int, kind),
                    )
                    &&& final(self).history@ == old(self).history@.push(
                        PlacementRecord::Attached { on, side, kind },
                    )
                },
                Err(e) => {
                    &&& !attach_ok_s(old(self).tiles_m(), on as int, side as int, kind)
                    &&& e == attach_err_s(old(self).tiles_m(), on as int, side as int, kind)
                    &&& *final(self) == *old(self)
                },
            },
    {
        let ghost ts = self.tiles_m();
        let ghost oldh = self.history@;
        match self.check_attach(on, side, kind) {
            Err(e) => Err(e),
            Ok(xf) => {
                let h = self.tiles.len();
                self.push_tile(kind, xf);
                self.history.push(PlacementRecord::Attached { on, side, kind });
                proof {
                    let rec = PlacementRecord::Attached { on, side, kind };
                    let nts = ts.push(attach_tile_s(ts, on as int, side as int, kind));
                    assert(self.tiles_m() == nts);
                    assert(oldh.take(ts.len() as int) =~= oldh);
                    assert(self.history@ == oldh.push(rec));
                    assert(self.history@.take(self.tiles@.len() as int) =~= self.history@);
                    assert(self.history@.drop_last() =~= oldh);
                    assert(run_log_s(self.history@) == apply_rec_s(ts, rec));
                    assert(apply_rec_s(ts, rec) == Some(nts));
                }
                Ok(h)
            },
        }
    }

    /// Start a tiling: place a root tile of the given type at the origin
    /// with the identity transform.  Refused when tiles exist already.
    pub fn place_root(&mut self, kind: PrototileType) -> (r: Result<usize, PlaceError>)
        requires
            old(self).wf(),
            !old(self).replay,
        ensures
            final(self).wf(),
            !final(self).replay,
            match r {
                Ok(h) => {
                    &&& old(self).tiles@.len() == 0
                    &&& h == 0
                    &&& final(self).tiles_m() == old(self).tiles_m().push(root_tile_s(kind))
                    &&& final(self).history@ == old(self).history@.push(
                        PlacementRecord::Root { kind },
                    )
                },
                Err(e) => {
                    &&& old(self).tiles@.len() > 0
                    &&& e == PlaceError::NotEmpty
                    &&& *final(self) == *old(self)
                },
            },
    {
        let ghost ts = self.tiles_m();
        let ghost oldh = self.history@;
        if self.tiles.len() > 0 {
            return Err(PlaceError::NotEmpty);
        }
        let xf = Xform::identity();
        self.push_tile(kind, xf);
        self.history.push(PlacementRecord::Root { kind });
        proof {
            let rec = PlacementRecord::Root { kind };
            assert(ts =~= Seq::<STile>::empty());
            assert(oldh.take(0) =~= oldh);
            assert(self.history@.take(self.tiles@.len() as int) =~= self.history@);
            assert(self.history@.drop_last() =~= oldh);
            assert(run_log_s(self.history@) == apply_rec_s(ts, rec));
        }
        Ok(0)
    }

    /// Remove the most recently placed tile: its edge records are
    /// stripped, so a neighbour side that drops back to a single record
    /// becomes free again.  Outside replay mode the history tail is popped
    /// with it; in replay mode the log is immutable ground truth and only
    /// the live tiles shrink.
    pub fn undo_last(&mut self)
        requires
            old(self).wf(),
            old(self).tiles@.len() > 0,
        ensures
            final(self).wf(),
            final(self).replay == old(self).replay,
            final(self).tiles_m() == old(self).tiles_m().drop_last(),
            final(self).history@ == if old(self).replay {
                old(self).history@
            } else {
                old(self).history@.drop_last()
            },
    {
        let ghost ts = self.tiles_m();
        let ghost n = self.tiles@.len() as int;
        let ghost oldh = self.history@;
        let _ = self.tiles.pop();
        proof {
            assert(self.tiles_m() =~= ts.drop_last());
        }
        self.edges = index_of_tiles(&self.tiles);
        if !self.replay {
            let _ = self.history.pop();
        }
        proof {
            lemma_run_log_prefix(oldh.take(n), ts, n - 1);
            assert(oldh.take(n).take(n - 1) =~= oldh.take(n - 1));
            assert(ts.take(n - 1) =~= ts.drop_last());
            assert(run_log_s(oldh.take(n - 1)) == Some(ts.drop_last()));
            if !self.replay {
                assert(self.history@ =~= oldh.take(n - 1));
                assert(self.history@.take(self.tiles@.len() as int) =~= self.history@);
            } else {
                assert(self.history@.take(self.tiles@.len() as int) =~= oldh.take(n - 1));
            }
            assert forall|i: int|
                0 <= i < self.tiles@.len() implies tile_ok(#[trigger] self.tiles_m()[i]) by {
                assert(self.tiles_m()[i] == ts[i]);
            }
        }
    }

    /// Consume the next record of a loaded history, placing exactly the
    /// recorded tile.  Returns `None`, leaving the state unchanged, when
    /// the history is exhausted or its next record is not legal in the
    /// current state (a corrupt import).
    pub fn replay_next(&mut self) -> (r: Option<(usize, Xform, PrototileType)>)
        requires
            old(self).wf(),
            old(self).replay,
        ensures
            final(self).wf(),
            final(self).replay,
            final(self).history@ == old(self).history@,
            match r {
                Some((h, xf, kind)) => {
                    &&& old(self).tiles@.len() < old(self).history@.len()
                    &&& apply_rec_s(
                        old(self).tiles_m(),
                        old(self).history@[old(self).tiles@.len() as int],
                    ) == Some(final(self).tiles_m())
                    &&& h == old(self).tiles@.len()
                    &&& final(self).tiles_m() == old(self).tiles_m().push(
                        STile { kind, xf: xf@ },
                    )
                    &&& xf.wf()
                },
                None => {
                    &&& (old(self).tiles@.len() >= old(self).history@.len() || apply_rec_s(
                        old(self).tiles_m(),
                        old(self).history@[old(self).tiles@.len() as int],
                    ) is None)
                    &&& *final(self) == *old(self)
                },
            },
    {
        let ghost ts = self.tiles_m();
        let n = self.tiles.len();
        if n >= self.history.len() {
            return None;
        }
        let rec = self.history[n];
        match rec {
            PlacementRecord::Root { kind } => {
                if n > 0 {
                    return None;
                }
                let xf = Xform::identity();
                self.push_tile(kind, xf);
                proof {
                    assert(ts =~= Seq::<STile>::empty());
                    assert(self.history@.take(1).drop_last() =~= self.history@.take(0));
                    assert(self.history@.take(0) =~= Seq::<PlacementRecord>::empty());
                    assert(self.history@.take(1).last() == rec);
                    assert(run_log_s(self.history@.take(1)) == apply_rec_s(ts, rec));
                    assert(self.tiles_m() == ts.push(root_tile_s(kind)));
                }
                Some((0, xf, kind))
            },
            PlacementRecord::Attached { on, side, kind } => {
                match self.check_attach(on, side, kind) {
                    Err(_) => None,
                    Ok(xf) => {
                        let h = self.tiles.len();
                        self.push_tile(kind, xf);
                        proof {
                            let np = (n + 1) as int;
                            assert(self.history@.take(np).drop_last() =~= self.history@.take(
                                n as int,
                            ));
                            assert(self.history@.take(np).last() == rec);
                            assert(run_log_s(self.history@.take(np)) == apply_rec_s(ts, rec));
                            assert(self.tiles_m() == ts.push(
                                attach_tile_s(ts, on as int, side as int, kind),
                            ));
                        }
                        Some((h, xf, kind))
                    },
                }
            },
        }
    }
}

/// Rebuild the edge index that holds exactly the records of a tile list.
fn index_of_tiles(tiles: &Vec<TileInstance>) -> (r: EdgeIndex)
    requires
        forall|i: int| 0 <= i < tiles@.len() ==> tile_ok(#[trigger] tiles_model(tiles@)[i]),
    ensures
        r.inv(),
        forall|k: SEdge| #[trigger] r.recs_at(k) == records_at(tiles_model(tiles@), k),
{
    let mut idx = EdgeIndex::new();
    proof {
        assert forall|k: SEdge| #[trigger] idx.recs_at(k) == records_at(
            tiles_model(tiles@).take(0),
            k,
        ) by {
            assert(tiles_model(tiles@).take(0) =~= Seq::<STile>::empty());
            assert(records_at(tiles_model(tiles@).take(0), k) == Seq::<EdgeRecord>::empty());
        }
    }
    let mut i: usize = 0;
    while i < tiles.len()
        invariant
            i <= tiles@.len(),
            idx.inv(),
            forall|i2: int| 0 <= i2 < tiles@.len() ==> tile_ok(#[trigger] tiles_model(tiles@)[i2]),
            forall|k: SEdge| #[trigger] idx.recs_at(k) == records_at(
                tiles_model(tiles@).take(i as int),
                k,
            ),
        decreases tiles@.len() - i,
    {
        let t = tiles[i];
        let ghost part = tiles_model(tiles@).take(i as int);
        proof {
            assert(tiles_model(tiles@)[i as int] == t@);
            assert(tile_ok(t@));
        }
        add_tile_records(&mut idx, &t, i, Ghost(part));
        proof {
            assert(tiles_model(tiles@).take(i + 1) =~= part.push(t@));
        }
        i = i + 1;
    }
    proof {
        assert(tiles_model(tiles@).take(tiles@.len() as int) =~= tiles_model(tiles@));
    }
    idx
}


/// Choose a value below n uniformly.
///
/// Relies on rand::Rng::gen_range over the range 0..n with the thread-local
/// generator: the result lies in the range, and the call panics only on an
/// empty range, which the precondition excludes.  Nothing is assumed about
/// which value comes back.
#[verifier::external_body]
fn rand_below(n: usize) -> (r: usize)
    requires
        n > 0,
    ensures
        r < n,
{
    rand::thread_rng().gen_range(0..n)
}

/// Choose a prototile type uniformly at random.
fn random_kind() -> (r: PrototileType) {
    let kinds = all_prototile_types();
    let i = rand_below(kinds.len());
    kinds[i]
}

/// The anchor visited at the given offset of a cyclic scan from `start`.
pub open spec fn wrap_s(start: int, off: int, n: int) -> int {
    if start + off < n {
        start + off
    } else {
        start + off - n
    }
}

impl Tiling {
    /// Whether side `side` of the tile at handle `h` already touches
    /// another tile.
    pub fn get_side_used(&self, h: usize, side: usize) -> (r: bool)
        requires
            self.wf(),
            h < self.tiles@.len(),
            side < 4,
        ensures
            r == side_used_s(self.tiles_m(), h as int, side as int),
    {
        let t = self.tiles[h];
        proof {
            assert(t@ == self.tiles_m()[h as int]);
            assert(tile_ok(self.tiles_m()[h as int]));
        }
        let e = tile_edge(&t, side);
        let rs = self.edges.records_of(&e);
        proof {
            assert(self.edges.recs_at(e@) == records_at(self.tiles_m(), e@));
        }
        rs.len() >= 2
    }

    /// The records indexed at the world-space edge of side `side` of the
    /// tile at handle `h`, the tile's own record included: the neighbours
    /// already touching that edge can be read off the other records.
    pub fn side_records(&self, h: usize, side: usize) -> (r: Vec<EdgeRecord>)
        requires
            self.wf(),
            h < self.tiles@.len(),
            side < 4,
        ensures
            r@ == records_at(
                self.tiles_m(),
                tile_edge_key_s(self.tiles_m()[h as int], side as int),
            ),
    {
        let t = self.tiles[h];
        proof {
            assert(t@ == self.tiles_m()[h as int]);
            assert(tile_ok(self.tiles_m()[h as int]));
        }
        let e = tile_edge(&t, side);
        let rs = self.edges.records_of(&e);
        proof {
            assert(self.edges.recs_at(e@) == records_at(self.tiles_m(), e@));
        }
        rs
    }

    /// The side indices of the tile at handle h that do not yet touch
    /// another tile, in side order.
    pub fn free_sides(&self, h: usize) -> (r: Vec<usize>)
        requires
            self.wf(),
            h < self.tiles@.len(),
        ensures
            r@ == free_sides_s(self.tiles_m(), h as int),
    {
        let ghost ts = self.tiles_m();
        let mut out: Vec<usize> = Vec::new();
        if !self.get_side_used(h, 0) {
            out.push(0);
        }
        proof {
            assert(out@ =~= side_if_free_s(ts, h as int, 0));
        }
        if !self.get_side_used(h, 1) {
            out.push(1);
        }
        proof {
            assert(out@ =~= side_if_free_s(ts, h as int, 0) + side_if_free_s(ts, h as int, 1));
        }
        if !self.get_side_used(h, 2) {
            out.push(2);
        }
        proof {
            assert(out@ =~= side_if_free_s(ts, h as int, 0) + side_if_free_s(ts, h as int, 1)
                + side_if_free_s(ts, h as int, 2));
        }
        if !self.get_side_used(h, 3) {
            out.push(3);
        }
        proof {
            assert(out@ =~= free_sides_s(ts, h as int));
        }
        out
    }

    /// Whether some side of the tile at handle h is still free.
    pub fn has_free_sides(&self, h: usize) -> (r: bool)
        requires
            self.wf(),
            h < self.tiles@.len(),
        ensures
            r == exists|s: int| 0 <= s < 4 && !(#[trigger] side_used_s(self.tiles_m(), h as int, s)),
    {
        if !self.get_side_used(h, 0) {
            return true;
        }
        if !self.get_side_used(h, 1) {
            return true;
        }
        if !self.get_side_used(h, 2) {
            return true;
        }
        if !self.get_side_used(h, 3) {
            return true;
        }
        proof {
            assert forall|s: int| 0 <= s < 4 implies #[trigger] side_used_s(
                self.tiles_m(),
                h as int,
                s,
            ) by {}
        }
        false
    }

    /// The four world-space vertices of a live tile, in local vertex order.
    pub fn tile_world_polygon(&self, h: usize) -> (r: Vec<Pt>)
        requires
            self.wf(),
            h < self.tiles@.len(),
        ensures
            r@.len() == 4,
            forall|i: int|
                0 <= i < 4 ==> #[trigger] r@[i]@ == world_pt_s(
                    self.tiles_m()[h as int].kind,
                    self.tiles_m()[h as int].xf,
                    i,
                ),
    {
        let t = self.tiles[h];
        proof {
            assert(t@ == self.tiles_m()[h as int]);
            assert(tile_ok(self.tiles_m()[h as int]));
        }
        let poly = world_poly(t.kind, &t.xf);
        let mut out: Vec<Pt> = Vec::new();
        out.push(poly.get(0));
        out.push(poly.get(1));
        out.push(poly.get(2));
        out.push(poly.get(3));
        proof {
            assert forall|i: int|
                0 <= i < 4 implies #[trigger] out@[i]@ == world_pt_s(
                self.tiles_m()[h as int].kind,
                self.tiles_m()[h as int].xf,
                i,
            ) by {
                assert(poly.at(i) == world_pt_s(t@.kind, t@.xf, i));
            }
        }
        out
    }

    /// The legal candidate set for attaching a new tile to the tile at
    /// handle `on`: every (free side, prototile type) pair that passes the
    /// collision test and the edge matching rules, in side-major order
    /// with fat before skinny.
    pub fn legal_placements(&self, on: usize) -> (r: Vec<(usize, PrototileType)>)
        requires
            self.wf(),
            on < self.tiles@.len(),
        ensures
            r@ == legal_pairs_s(self.tiles_m(), on as int),
    {
        let ghost ts = self.tiles_m();
        let mut out: Vec<(usize, PrototileType)> = Vec::new();
        let mut s: usize = 0;
        while s < 4
            invariant
                self.wf(),
                on < self.tiles@.len(),
                s <= 4,
                ts == self.tiles_m(),
                out@ == legal_prefix(ts, on as int, s as int),
            decreases 4 - s,
        {
            match self.check_attach(on, s, PrototileType::Fat) {
                Ok(_) => {
                    out.push((s, PrototileType::Fat));
                },
                Err(_) => {},
            }
            proof {
                assert(out@ =~= legal_prefix(ts, on as int, s as int) + pair_if_s(
                    ts,
                    on as int,
                    s as int,
                    PrototileType::Fat,
                ));
            }
            match self.check_attach(on, s, PrototileType::Skinny) {
                Ok(_) => {
                    out.push((s, PrototileType::Skinny));
                },
                Err(_) => {},
            }
            proof {
                assert(out@ =~= legal_prefix(ts, on as int, s as int) + pair_if_s(
                    ts,
                    on as int,
                    s as int,
                    PrototileType::Fat,
                ) + pair_if_s(ts, on as int, s as int, PrototileType::Skinny));
                assert(out@ =~= legal_prefix(ts, on as int, s as int + 1));
            }
            s = s + 1;
        }
        proof {
            lemma_legal_prefix_full(ts, on as int);
        }
        out
    }
}

/// The legal candidate pairs of the first `s` sides, in order.
pub open spec fn legal_prefix(tiles: Seq<STile>, on: int, s: int) -> Seq<(usize, PrototileType)>
    decreases s,
{
    if s <= 0 {
        Seq::<(usize, PrototileType)>::empty()
    } else {
        legal_prefix(tiles, on, s - 1) + pair_if_s(tiles, on, s - 1, PrototileType::Fat)
            + pair_if_s(tiles, on, s - 1, PrototileType::Skinny)
    }
}

/// The whole prefix is the legal candidate set.
proof fn lemma_legal_prefix_full(tiles: Seq<STile>, on: int)
    ensures
        legal_prefix(tiles, on, 4) == legal_pairs_s(tiles, on),
{
    reveal_with_fuel(legal_prefix, 5);
    assert(legal_prefix(tiles, on, 4) =~= legal_pairs_s(tiles, on));
}


impl Tiling {
    /// Place one random legal tile.
    ///
    /// On an empty tiling a root tile of a random type is placed at the
    /// origin.  Otherwise the live tiles are tried as anchors in cyclic
    /// order from a random start; at the first anchor with a non-empty
    /// legal candidate set, one candidate is chosen uniformly at random
    /// and placed.  Returns `None`, leaving the state unchanged, exactly
    /// when no anchor admits any legal candidate: the tiling is locally
    /// saturated, an expected outcome rather than an error.
    pub fn place_random_legal(&mut self) -> (r: Option<(usize, Xform, PrototileType)>)
        requires
            old(self).wf(),
            !old(self).replay,
        ensures
            final(self).wf(),
            !final(self).replay,
            match r {
                Some((h, xf, kind)) => {
                    &&& h == old(self).tiles@.len()
                    &&& (old(self).tiles@.len() == 0 ==> {
                        &&& final(self).tiles_m() == old(self).tiles_m().push(root_tile_s(kind))
                        &&& final(self).history@ == old(self).history@.push(
                            PlacementRecord::Root { kind },
                        )
                        &&& xf@ == identity_s()
                    })
                    &&& (old(self).tiles@.len() > 0 ==> exists|on: usize, side: usize| {
                        &&& #[trigger] attach_ok_s(
                            old(self).tiles_m(),
                            on as int,
                            side as int,
                            kind,
                        )
                        &&& final(self).tiles_m() == old(self).tiles_m().push(
                            attach_tile_s(old(self).tiles_m(), on as int, side as int, kind),
                        )
                        &&& final(self).history@ == old(self).history@.push(
                            PlacementRecord::Attached { on, side, kind },
                        )
                        &&& xf@ == attach_xf_s(old(self).tiles_m(), on as int, side as int, kind)
                    })
                },
                None => {
                    &&& old(self).tiles@.len() > 0
                    &&& forall|on: int, side: int, kind: PrototileType|
                        0 <= on < old(self).tiles@.len() && 0 <= side < 4 ==> !(
                        #[trigger] attach_ok_s(old(self).tiles_m(), on, side, kind))
                    &&& *final(self) == *old(self)
                },
            },
    {
        let ghost ts = self.tiles_m();
        let n = self.tiles.len();
        if n == 0 {
            let kind = random_kind();
            let res = self.place_root(kind);
            match res {
                Ok(h) => {
                    return Some((h, Xform::identity(), kind));
                },
                Err(_) => {
                    proof {
                        assert(false);
                    }
                    return None;
                },
            }
        }
        let start = rand_below(n);
        let mut off: usize = 0;
        let mut found = false;
        let mut f_on: usize = 0;
        let mut f_side: usize = 0;
        let mut f_kind = PrototileType::Fat;
        while !found && off < n
            invariant
                self.wf(),
                !self.replay,
                ts == self.tiles_m(),
                n == self.tiles@.len(),
                n > 0,
                start < n,
                off <= n,
                !found ==> forall|o2: int|
                    0 <= o2 < off ==> anchor_fails_s(
                        ts,
                        #[trigger] wrap_s(start as int, o2, n as int),
                    ),
                found ==> f_on < n && f_side < 4 && attach_ok_s(
                    ts,
                    f_on as int,
                    f_side as int,
                    f_kind,
                ),
            decreases (if found { 0int } else { 1int }), n - off,
        {
            let h = if off < n - start {
                start + off
            } else {
                off - (n - start)
            };
            proof {
                assert(h as int == wrap_s(start as int, off as int, n as int));
            }
            let pairs = self.legal_placements(h);
            if pairs.len() > 0 {
                let pick = rand_below(pairs.len());
                let (ps, pk) = pairs[pick];
                proof {
                    lemma_legal_pairs_elem(ts, h as int, pick as int);
                }
                found = true;
                f_on = h;
                f_side = ps;
                f_kind = pk;
            } else {
                proof {
                    lemma_empty_pairs_anchor_fails(ts, h as int);
                }
                off = off + 1;
            }
        }
        if !found {
            proof {
                assert forall|on: int, side: int, kind: PrototileType|
                    0 <= on < ts.len() && 0 <= side < 4 implies !(#[trigger] attach_ok_s(
                    ts,
                    on,
                    side,
                    kind,
                )) by {
                    let o2 = if on >= start { on - start } else { on + n - start };
                    assert(wrap_s(start as int, o2, n as int) == on);
                    assert(anchor_fails_s(ts, on));
                }
            }
            return None;
        }
        let res = self.place(f_on, f_side, f_kind);
        match res {
            Ok(h) => {
                let xf = self.tiles[h].xf;
                proof {
                    assert(self.tiles_m()[h as int].xf == attach_xf_s(
                        ts,
                        f_on as int,
                        f_side as int,
                        f_kind,
                    ));
                    assert(attach_ok_s(ts, f_on as int, f_side as int, f_kind));
                }
                Some((h, xf, f_kind))
            },
            Err(_) => {
                proof {
                    assert(false);
                }
                None
            },
        }
    }

    /// The validity check with its backtracking step: when some live tile
    /// has an unoccupied side on which no prototile of either type can
    /// legally be placed, the tiling has reached a local dead end, and the
    /// most recently placed tile is retracted as `undo_last` would.
    /// Returns whether a retraction happened.
    pub fn retract_if_dead_end(&mut self) -> (r: bool)
        requires
            old(self).wf(),
        ensures
            final(self).wf(),
            final(self).replay == old(self).replay,
            dead_end_s(old(self).tiles_m()) ==> {
                &&& r
                &&& old(self).tiles@.len() > 0
                &&& final(self).tiles_m() == old(self).tiles_m().drop_last()
                &&& final(self).history@ == if old(self).replay {
                    old(self).history@
                } else {
                    old(self).history@.drop_last()
                }
            },
            !dead_end_s(old(self).tiles_m()) ==> !r && *final(self) == *old(self),
    {
        let ghost ts = self.tiles_m();
        let n = self.tiles.len();
        let mut h: usize = 0;
        while h < n
            invariant
                self.wf(),
                *self == *old(self),
                ts == self.tiles_m(),
                n == self.tiles@.len(),
                h <= n,
                forall|h2: int, s2: int|
                    0 <= h2 < h && 0 <= s2 < 4 ==> !(#[trigger] dead_side_s(ts, h2, s2)),
            decreases n - h,
        {
            let mut side: usize = 0;
            while side < 4
                invariant
                    self.wf(),
                    *self == *old(self),
                    ts == self.tiles_m(),
                    n == self.tiles@.len(),
                    h < n,
                    side <= 4,
                    forall|h2: int, s2: int|
                        0 <= h2 < h && 0 <= s2 < 4 ==> !(#[trigger] dead_side_s(ts, h2, s2)),
                    forall|s2: int| 0 <= s2 < side ==> !(#[trigger] dead_side_s(ts, h as int, s2)),
                decreases 4 - side,
            {
                if !self.get_side_used(h, side) {
                    let fat_bad = match self.check_attach(h, side, PrototileType::Fat) {
                        Ok(_) => false,
                        Err(_) => true,
                    };
                    let skinny_bad = match self.check_attach(h, side, PrototileType::Skinny) {
                        Ok(_) => false,
                        Err(_) => true,
                    };
                    if fat_bad && skinny_bad {
                        proof {
                            assert(dead_side_s(ts, h as int, side as int));
                            assert(dead_end_s(ts));
                        }
                        self.undo_last();
                        return true;
                    }
                }
                proof {
                    assert(!dead_side_s(ts, h as int, side as int));
                }
                side = side + 1;
            }
            h = h + 1;
        }
        proof {
            if dead_end_s(ts) {
                let (h2, s2): (int, int) = choose|h2: int, s2: int|
                    0 <= h2 < ts.len() && 0 <= s2 < 4 && #[trigger] dead_side_s(ts, h2, s2);
                assert(!dead_side_s(ts, h2, s2));
            }
        }
        false
    }
}

/// No two distinct live tiles of a well-formed engine overlap beyond
/// shared-edge contact.
pub proof fn lemma_live_tiles_disjoint(t: Tiling)
    requires
        t.wf(),
    ensures
        forall|i: int, j: int|
            0 <= i < t.tiles@.len() && 0 <= j < t.tiles@.len() && i != j ==> !tiles_collide_s(
                (#[trigger] t.tiles_m()[i]).kind,
                t.tiles_m()[i].xf,
                (#[trigger] t.tiles_m()[j]).kind,
                t.tiles_m()[j].xf,
            ),
{
    lemma_placed_tiles_disjoint(t.history@.take(t.tiles@.len() as int), t.tiles_m());
}

/// In a well-formed engine, every edge carries at most two records, and
/// where it carries exactly two they obey the matching rule table in both
/// directions.
pub proof fn lemma_live_edges_matched(t: Tiling)
    requires
        t.wf(),
    ensures
        edge_records_matched(t.tiles_m()),
{
    assert(t.tiles.len() == t.tiles@.len());
    lemma_edge_records_matched(t.history@.take(t.tiles@.len() as int), t.tiles_m());
}

/// Replaying an exported history is deterministic, record for record: after
/// any prefix of the log, the reached state is exactly the corresponding
/// prefix of the live tiles, with the same handles, types and transforms.
pub proof fn lemma_replay_reproduces(t: Tiling, j: int)
    requires
        t.wf(),
        !t.replay,
        0 <= j <= t.history@.len(),
    ensures
        run_log_s(t.history@.take(j)) == Some(t.tiles_m().take(j)),
{
    assert(t.history@.take(t.tiles@.len() as int) =~= t.history@);
    lemma_run_log_prefix(t.history@, t.tiles_m(), j);
}

} // verus!
