use penrose::collision::tiles_collide;
use penrose::engine::Tiling;
use penrose::prototile::matching_side;

fn grown(steps: usize) -> Tiling {
    let mut t = Tiling::new();
    for _ in 0..steps {
        let _ = t.place_random_legal();
        let _ = t.retract_if_dead_end();
    }
    t
}

#[test]
fn random_tilings_have_no_overlaps() {
    // The polygon of every placed tile, derived from its stored transform,
    // never overlaps another live tile beyond shared-edge contact.
    let t = grown(32);
    let n = t.tile_count();
    assert!(n >= 1);
    for i in 0..n {
        for j in 0..n {
            if i != j {
                let xi = t.tile_transform(i);
                let xj = t.tile_transform(j);
                assert!(
                    !tiles_collide(t.tile_kind(i), &xi, t.tile_kind(j), &xj),
                    "tiles {} and {} overlap",
                    i,
                    j
                );
            }
        }
    }
}

#[test]
fn settled_edges_obey_the_matching_rules() {
    // Every edge carries at most two records, and where it carries exactly
    // two, their types and sides satisfy the matching rule table in both
    // directions.
    let t = grown(32);
    for h in 0..t.tile_count() {
        for side in 0..4 {
            let rs = t.side_records(h, side);
            assert!(rs.len() <= 2);
            if rs.len() == 2 {
                assert_eq!(rs[1].side, matching_side(rs[0].kind, rs[0].side, rs[1].kind));
                assert_eq!(rs[0].side, matching_side(rs[1].kind, rs[1].side, rs[0].kind));
            }
        }
    }
}
