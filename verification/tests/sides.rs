use penrose::engine::Tiling;
use penrose::prototile::{all_prototile_types, matching_side, PrototileType};
use penrose::prototile::PrototileType::{Fat, Skinny};

#[test]
fn both_prototile_types_are_listed() {
    let kinds = all_prototile_types();
    assert_eq!(kinds.len(), 2);
    assert!(matches!(kinds[0], PrototileType::Fat));
    assert!(matches!(kinds[1], PrototileType::Skinny));
}

#[test]
fn matching_table_is_an_involution() {
    for &a in &all_prototile_types() {
        for &b in &all_prototile_types() {
            for s in 0..4 {
                let m = matching_side(a, s, b);
                assert!(m < 4);
                assert_eq!(matching_side(b, m, a), s);
            }
        }
    }
}

#[test]
fn matching_table_values_are_fixed() {
    assert_eq!(
        (0..4).map(|s| matching_side(Fat, s, Fat)).collect::<Vec<_>>(),
        vec![3, 2, 1, 0]
    );
    assert_eq!(
        (0..4).map(|s| matching_side(Fat, s, Skinny)).collect::<Vec<_>>(),
        vec![0, 2, 3, 1]
    );
    assert_eq!(
        (0..4).map(|s| matching_side(Skinny, s, Fat)).collect::<Vec<_>>(),
        vec![0, 3, 1, 2]
    );
    assert_eq!(
        (0..4).map(|s| matching_side(Skinny, s, Skinny)).collect::<Vec<_>>(),
        vec![1, 0, 3, 2]
    );
}

#[test]
fn placement_consumes_free_sides() {
    let mut t = Tiling::new();
    t.place_root(PrototileType::Fat).unwrap();
    assert!(t.has_free_sides(0));
    assert_eq!(t.free_sides(0), vec![0, 1, 2, 3]);

    let h1 = t.place(0, 1, PrototileType::Fat).unwrap();
    assert_eq!(t.free_sides(0), vec![0, 2, 3]);
    // The new tile's matching side is used, its other three are free.
    let m = matching_side(PrototileType::Fat, 1, PrototileType::Fat);
    let free1 = t.free_sides(h1);
    assert_eq!(free1.len(), 3);
    assert!(!free1.contains(&m));

    // The anchor's candidate set no longer offers side 1.
    let legal = t.legal_placements(0);
    assert!(legal.iter().all(|(s, _)| *s != 1));
    assert!(!legal.is_empty());
}

#[test]
fn side_records_show_the_neighbour() {
    let mut t = Tiling::new();
    t.place_root(Fat).unwrap();
    t.place(0, 2, Skinny).unwrap();
    let rs = t.side_records(0, 2);
    assert_eq!(rs.len(), 2);
    assert_eq!(rs[0].tile, 0);
    assert_eq!(rs[0].side, 2);
    assert_eq!(rs[1].tile, 1);
    assert_eq!(t.side_records(0, 0).len(), 1);
    // The neighbour sees the same shared edge under its matching side.
    let m = matching_side(Fat, 2, Skinny);
    assert_eq!(t.side_records(1, m), rs);
}
