use penrose::engine::Tiling;
use penrose::prototile::{matching_side, PrototileType};
use penrose::edge::Edge;
use penrose::model::PlaceError;

#[test]
fn fresh_root_has_eight_candidates() {
    let mut t = Tiling::new();
    let h0 = t.place_root(PrototileType::Fat).unwrap();
    assert_eq!(h0, 0);
    let xf = t.tile_transform(0);
    assert_eq!(xf.k, 0);
    assert_eq!(xf.t.c0, 0);
    assert_eq!(xf.t.c1, 0);
    assert_eq!(xf.t.c2, 0);
    assert_eq!(xf.t.c3, 0);
    assert_eq!(xf.t.c4, 0);
    assert_eq!(xf.t.c5, 0);
    assert_eq!(xf.t.c6, 0);
    assert_eq!(xf.t.c7, 0);
    // A fresh root tile has no neighbours: all 4 sides x 2 types are legal.
    let legal = t.legal_placements(0);
    assert_eq!(legal.len(), 8);
}

#[test]
fn shared_edge_has_both_records() {
    let mut t = Tiling::new();
    t.place_root(PrototileType::Fat).unwrap();
    let h1 = t.place(0, 0, PrototileType::Skinny).unwrap();
    assert_eq!(h1, 1);
    // The shared edge is side 0 of the root tile.
    let poly = t.tile_world_polygon(0);
    let e = Edge::new(poly[0], poly[1]);
    let recs = t.edges.find(&e).unwrap();
    assert_eq!(recs.len(), 2);
    assert_eq!(recs[0].tile, 0);
    assert_eq!(recs[0].side, 0);
    assert!(matches!(recs[0].kind, PrototileType::Fat));
    assert_eq!(recs[1].tile, 1);
    assert_eq!(
        recs[1].side,
        matching_side(PrototileType::Fat, 0, PrototileType::Skinny)
    );
    assert!(matches!(recs[1].kind, PrototileType::Skinny));
    assert!(t.get_side_used(0, 0));
    assert!(!t.get_side_used(0, 1));
    assert!(!t.get_side_used(0, 2));
    assert!(!t.get_side_used(0, 3));
}

#[test]
fn skinny_on_each_side_of_fresh_fat_root() {
    for side in 0..4 {
        let mut t = Tiling::new();
        t.place_root(PrototileType::Fat).unwrap();
        let r = t.place(0, side, PrototileType::Skinny);
        assert!(r.is_ok(), "side {} gave {:?}", side, r);
    }
}

#[test]
fn skinny_ring_around_fat_root() {
    // All four skinny tiles together: none collides with the root or with
    // each other (adjacent ones share an edge exactly).
    let mut t = Tiling::new();
    t.place_root(PrototileType::Fat).unwrap();
    for side in 0..4 {
        let r = t.place(0, side, PrototileType::Skinny);
        assert!(r.is_ok(), "side {} gave {:?}", side, r);
    }
    assert_eq!(t.tile_count(), 5);
}

#[test]
fn five_fat_cluster_undo_frees_sides() {
    let mut t = Tiling::new();
    t.place_root(PrototileType::Fat).unwrap();
    for side in 0..4 {
        let h = t.place(0, side, PrototileType::Fat).unwrap();
        assert_eq!(h, side + 1);
    }
    for side in 0..4 {
        assert!(t.get_side_used(0, side));
    }
    // Undo the four neighbours in reverse order; after each undo the
    // anchor side must be free again and the shared edge must drop to the
    // root's own record.
    for k in (0..4).rev() {
        t.undo_last();
        assert!(!t.get_side_used(0, k), "side {} still used after undo", k);
        let poly = t.tile_world_polygon(0);
        let e = Edge::new(poly[k], poly[(k + 1) % 4]);
        let recs = t.edges.records_of(&e);
        assert_eq!(recs.len(), 1);
        assert_eq!(recs[0].tile, 0);
    }
    assert_eq!(t.tile_count(), 1);
}

#[test]
fn forbidden_vertex_is_an_edge_conflict() {
    // Root fat, a skinny on side 0 and a skinny on side 1 leave a 72
    // degree gap at the root's top vertex.  A fat anchored on side 3 of
    // the first skinny fills the gap exactly, but the edge it shares with
    // the second skinny violates the matching rule.
    let mut t = Tiling::new();
    t.place_root(PrototileType::Fat).unwrap();
    assert_eq!(t.place(0, 0, PrototileType::Skinny), Ok(1));
    assert_eq!(t.place(0, 1, PrototileType::Skinny), Ok(2));
    assert_eq!(t.place(1, 3, PrototileType::Fat), Err(PlaceError::EdgeConflict));
}

#[test]
fn overfilled_vertex_is_a_collision() {
    // In the same configuration, anchoring on side 3 of the second skinny
    // puts a 108 or 144 degree corner into the 72 degree gap: both
    // prototile types overlap the first skinny.
    let mut t = Tiling::new();
    t.place_root(PrototileType::Fat).unwrap();
    assert_eq!(t.place(0, 0, PrototileType::Skinny), Ok(1));
    assert_eq!(t.place(0, 1, PrototileType::Skinny), Ok(2));
    assert_eq!(t.place(2, 3, PrototileType::Fat), Err(PlaceError::Collision));
    assert_eq!(t.place(2, 3, PrototileType::Skinny), Err(PlaceError::Collision));
}

#[test]
fn dead_end_retracts_last_placement() {
    // Side 3 of the second skinny can accept no prototile at all and is
    // not occupied: the validity check retracts the most recent placement.
    let mut t = Tiling::new();
    t.place_root(PrototileType::Fat).unwrap();
    t.place(0, 0, PrototileType::Skinny).unwrap();
    t.place(0, 1, PrototileType::Skinny).unwrap();
    assert!(t.retract_if_dead_end());
    assert_eq!(t.tile_count(), 2);
    assert_eq!(t.history_len(), 2);
}
