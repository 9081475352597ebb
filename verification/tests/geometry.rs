use penrose::collision::tiles_collide;
use penrose::engine::Tiling;
use penrose::prototile::PrototileType;
use penrose::ring::Pt;
use penrose::sign::im16_sign;
use penrose::xform::Xform;

fn one() -> Pt {
    Pt { c0: 1, c1: 0, c2: 0, c3: 0, c4: 0, c5: 0, c6: 0, c7: 0 }
}

#[test]
fn imaginary_sign_of_unit_directions() {
    // The unit vector at k * 18 degrees has imaginary part sin(k * 18
    // degrees): zero on the real axis, positive in the upper half plane,
    // negative in the lower.
    for k in 0..20 {
        let p = one().pt_rot(k);
        let want: i64 = if k == 0 || k == 10 {
            0
        } else if k < 10 {
            1
        } else {
            -1
        };
        assert_eq!(im16_sign(&p), want, "direction {}", k);
    }
}

#[test]
fn imaginary_sign_of_sums() {
    // z + z^19 is 2*cos(18 degrees), purely real.
    let p = one().pt_rot(1).pt_add(&one().pt_rot(19));
    assert_eq!(im16_sign(&p), 0);
    // z^3 - z^17 is 2i*sin(54 degrees), purely imaginary and positive.
    let q = one().pt_rot(3).pt_sub(&one().pt_rot(17));
    assert_eq!(im16_sign(&q), 1);
    // The origin.
    assert_eq!(im16_sign(&Pt::zero()), 0);
}

#[test]
fn coincident_tiles_collide_and_distant_ones_do_not() {
    let id = Xform::identity();
    assert!(tiles_collide(PrototileType::Fat, &id, PrototileType::Fat, &id));
    assert!(tiles_collide(PrototileType::Skinny, &id, PrototileType::Fat, &id));
    let far = Xform { k: 0, t: Pt { c0: 100, c1: 0, c2: 0, c3: 0, c4: 0, c5: 0, c6: 0, c7: 0 } };
    assert!(!tiles_collide(PrototileType::Fat, &id, PrototileType::Fat, &far));
}

#[test]
fn edge_sharing_neighbours_do_not_collide() {
    let mut t = Tiling::new();
    t.place_root(PrototileType::Fat).unwrap();
    t.place(0, 0, PrototileType::Skinny).unwrap();
    let x0 = t.tile_transform(0);
    let x1 = t.tile_transform(1);
    assert!(!tiles_collide(t.tile_kind(0), &x0, t.tile_kind(1), &x1));
    assert!(!tiles_collide(t.tile_kind(1), &x1, t.tile_kind(0), &x0));
}
