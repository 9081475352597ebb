use penrose::codec::{decode_history, encode_history};
use penrose::engine::Tiling;
use penrose::model::PlacementRecord;
use penrose::prototile::PrototileType;

#[test]
fn encoded_history_decodes_to_itself() {
    let mut t = Tiling::new();
    t.place_root(PrototileType::Fat).unwrap();
    t.place(0, 0, PrototileType::Skinny).unwrap();
    t.place(0, 2, PrototileType::Fat).unwrap();
    for _ in 0..8 {
        let _ = t.place_random_legal();
    }
    let hist = t.export_history();
    let bytes = encode_history(&hist);
    let back = decode_history(&bytes).unwrap();
    assert_eq!(back, hist);
}

#[test]
fn decoded_bytes_replay_to_the_same_tiling() {
    let mut t = Tiling::new();
    for _ in 0..10 {
        let _ = t.place_random_legal();
    }
    let bytes = encode_history(&t.export_history());
    let mut r = Tiling::import_history(decode_history(&bytes).unwrap());
    while r.replay_next().is_some() {}
    assert_eq!(r.tile_count(), t.tile_count());
    for h in 0..t.tile_count() {
        assert_eq!(r.tile_kind(h), t.tile_kind(h));
        assert_eq!(r.tile_transform(h), t.tile_transform(h));
    }
}

#[test]
fn record_encoding_is_as_documented() {
    let root = vec![PlacementRecord::Root { kind: PrototileType::Fat }];
    assert_eq!(encode_history(&root), vec![0u8, 0u8]);

    let attached = vec![PlacementRecord::Attached { on: 1, side: 2, kind: PrototileType::Skinny }];
    let mut want = vec![1u8, 1u8];
    want.extend([1u8, 0, 0, 0, 0, 0, 0, 0]);
    want.extend([2u8, 0, 0, 0, 0, 0, 0, 0]);
    assert_eq!(encode_history(&attached), want);

    let big = vec![PlacementRecord::Attached { on: 258, side: 0, kind: PrototileType::Fat }];
    let mut want_big = vec![1u8, 0u8];
    want_big.extend([2u8, 1, 0, 0, 0, 0, 0, 0]);
    want_big.extend([0u8, 0, 0, 0, 0, 0, 0, 0]);
    assert_eq!(encode_history(&big), want_big);
}

#[test]
fn malformed_bytes_are_rejected() {
    // Unknown tag.
    assert!(decode_history(&vec![2u8]).is_none());
    // Truncated root record.
    assert!(decode_history(&vec![0u8]).is_none());
    // Root with an unknown prototile byte.
    assert!(decode_history(&vec![0u8, 5u8]).is_none());
    // Truncated attached record.
    assert!(decode_history(&vec![1u8, 0u8, 3u8]).is_none());
    // Trailing garbage after a good record.
    assert!(decode_history(&vec![0u8, 0u8, 9u8]).is_none());
    // The empty input is a valid empty history.
    assert_eq!(decode_history(&Vec::new()).unwrap(), Vec::new());
}
