use penrose::engine::Tiling;
use penrose::model::{PlaceError, PlacementRecord};
use penrose::prototile::PrototileType;

#[test]
fn replay_reproduces_random_run() {
    let mut t = Tiling::new();
    for _ in 0..16 {
        let _ = t.place_random_legal();
    }
    let n = t.tile_count();
    assert!(n >= 1);
    let hist = t.export_history();
    assert_eq!(hist.len(), n);

    let mut r = Tiling::import_history(hist);
    assert!(r.replaying());
    let mut step: usize = 0;
    while let Some((h, xf, kind)) = r.replay_next() {
        assert_eq!(h, step);
        assert_eq!(xf, t.tile_transform(step));
        assert_eq!(kind, t.tile_kind(step));
        step += 1;
    }
    assert_eq!(step, n);
    assert_eq!(r.tile_count(), n);
    for i in 0..n {
        assert_eq!(r.tile_kind(i), t.tile_kind(i));
        assert_eq!(r.tile_transform(i), t.tile_transform(i));
        assert_eq!(r.tile_world_polygon(i), t.tile_world_polygon(i));
    }
    // The history is exhausted: a further step does nothing.
    assert!(r.replay_next().is_none());
    assert_eq!(r.tile_count(), n);
}

#[test]
fn undo_then_replay_restores_state() {
    let mut t = Tiling::new();
    t.place_root(PrototileType::Fat).unwrap();
    t.place(0, 0, PrototileType::Skinny).unwrap();
    t.place(0, 1, PrototileType::Fat).unwrap();
    let hist = t.export_history();
    let kind_before = t.tile_kind(2);
    let xf_before = t.tile_transform(2);

    t.undo_last();
    assert_eq!(t.tile_count(), 2);
    assert_eq!(t.history_len(), 2);

    match hist[2] {
        PlacementRecord::Attached { on, side, kind } => {
            let h = t.place(on, side, kind).unwrap();
            assert_eq!(h, 2);
        },
        _ => panic!("expected an attached record"),
    }
    assert_eq!(t.tile_kind(2), kind_before);
    assert_eq!(t.tile_transform(2), xf_before);
    assert_eq!(t.export_history(), hist);
}

#[test]
fn undo_in_replay_mode_keeps_log() {
    let mut t = Tiling::new();
    t.place_root(PrototileType::Fat).unwrap();
    t.place(0, 2, PrototileType::Fat).unwrap();
    let hist = t.export_history();

    let mut r = Tiling::import_history(hist.clone());
    assert!(r.replay_next().is_some());
    assert!(r.replay_next().is_some());
    assert_eq!(r.tile_count(), 2);
    // The log is immutable ground truth in replay mode.
    r.undo_last();
    assert_eq!(r.tile_count(), 1);
    assert_eq!(r.history_len(), 2);
    // The popped record can be consumed again.
    let (h, _, kind) = r.replay_next().unwrap();
    assert_eq!(h, 1);
    assert_eq!(kind, t.tile_kind(1));
    assert_eq!(r.tile_transform(1), t.tile_transform(1));
}

#[test]
fn corrupt_import_stops_without_placing() {
    // An attached record that names a missing anchor cannot be replayed.
    let bad = vec![PlacementRecord::Attached { on: 7, side: 0, kind: PrototileType::Fat }];
    let mut r = Tiling::import_history(bad);
    assert!(r.replay_next().is_none());
    assert_eq!(r.tile_count(), 0);
}

#[test]
fn random_growth_stays_consistent() {
    let mut t = Tiling::new();
    let mut placed: usize = 0;
    for _ in 0..24 {
        if t.place_random_legal().is_some() {
            placed += 1;
        }
        let _ = t.retract_if_dead_end();
    }
    assert!(placed >= 1);
    assert_eq!(t.history_len(), t.tile_count());
    // Every live tile has a well-formed polygon of four points.
    for h in 0..t.tile_count() {
        assert_eq!(t.tile_world_polygon(h).len(), 4);
    }
}

#[test]
fn errors_name_the_violated_condition() {
    let mut t = Tiling::new();
    t.place_root(PrototileType::Fat).unwrap();
    assert_eq!(t.place_root(PrototileType::Skinny), Err(PlaceError::NotEmpty));
    assert_eq!(t.place(5, 0, PrototileType::Fat), Err(PlaceError::NoSuchTile));
    assert_eq!(t.place(0, 7, PrototileType::Fat), Err(PlaceError::SideOutOfRange));
    t.place(0, 0, PrototileType::Skinny).unwrap();
    assert_eq!(t.place(0, 0, PrototileType::Fat), Err(PlaceError::SideUsed));
}

#[test]
fn far_placements_hit_the_coordinate_budget() {
    // A straight ribbon of fat tiles marches away from the origin until a
    // candidate's translation would leave the fixed coordinate budget.
    let mut t = Tiling::new();
    t.place_root(PrototileType::Fat).unwrap();
    let mut last: usize = 0;
    let mut hit_budget = false;
    for i in 0..4000 {
        let side = if i % 2 == 0 { 0 } else { 1 };
        match t.place(last, side, PrototileType::Fat) {
            Ok(h) => {
                last = h;
            },
            Err(e) => {
                assert_eq!(e, PlaceError::OutOfRange);
                hit_budget = true;
                break;
            },
        }
    }
    assert!(hit_budget);
    // The engine is still usable afterwards.
    assert!(t.tile_count() > 1);
    t.undo_last();
    assert_eq!(t.history_len(), t.tile_count());
}
