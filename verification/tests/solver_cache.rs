use rubiks_trainer::five::Solver5x5;
use rubiks_trainer::three::cache::{decode_tables, encode_tables, CacheError, CACHE_VERSION};
use rubiks_trainer::three::tables::{MoveTables, PruningTables};

#[test]
fn save_load_round_trip_preserves_tables() {
    let move_tables = MoveTables::build();
    let pruning = PruningTables::build(&move_tables);
    let bytes = encode_tables(&pruning);
    let loaded = decode_tables(&bytes).expect("load");
    assert_eq!(loaded.udslice_goal, pruning.udslice_goal);
    assert_eq!(loaded.p1_co_udslice, pruning.p1_co_udslice);
    assert_eq!(loaded.p1_eo_udslice, pruning.p1_eo_udslice);
    assert_eq!(loaded.p1_co_eo, pruning.p1_co_eo);
    assert_eq!(loaded.p2_cp_uperm, pruning.p2_cp_uperm);
    assert_eq!(loaded.p2_ep_uperm, pruning.p2_ep_uperm);
}

#[test]
fn load_rejects_bad_magic() {
    let bytes = b"NOTRIGHT\x01\x00\x00\x00".to_vec();
    assert_eq!(decode_tables(&bytes).err(), Some(CacheError::BadMagic));
}

#[test]
fn load_rejects_version_mismatch() {
    let mut bytes = b"R3PRUN\0\0".to_vec();
    bytes.extend_from_slice(&u32::MAX.to_le_bytes());
    assert_eq!(decode_tables(&bytes).err(), Some(CacheError::VersionMismatch(u32::MAX)));
}

#[test]
fn load_rejects_truncated_and_wrong_sizes() {
    let mut bytes = b"R3PRUN\0\0".to_vec();
    assert_eq!(decode_tables(&bytes[..5]).err(), Some(CacheError::Truncated));
    bytes.extend_from_slice(&CACHE_VERSION.to_le_bytes());
    bytes.extend_from_slice(&5u16.to_le_bytes());
    assert_eq!(decode_tables(&bytes).err(), Some(CacheError::Truncated));
    bytes.extend_from_slice(&3u64.to_le_bytes());
    assert_eq!(
        decode_tables(&bytes).err(),
        Some(CacheError::SizeMismatch { got: 3, expected: 2187 * 495 })
    );
}

#[test]
fn encoded_header_layout() {
    let t = PruningTables {
        p1_co_udslice: vec![1; 2187 * 495],
        p1_eo_udslice: vec![2; 2048 * 495],
        p1_co_eo: vec![3; 2187 * 2048],
        p2_cp_uperm: vec![4; 40320 * 24],
        p2_ep_uperm: vec![5; 40320 * 24],
        udslice_goal: 494,
    };
    let bytes = encode_tables(&t);
    assert_eq!(&bytes[..8], b"R3PRUN\0\0");
    assert_eq!(&bytes[8..12], &1u32.to_le_bytes());
    assert_eq!(&bytes[12..14], &494u16.to_le_bytes());
    assert_eq!(&bytes[14..22], &((2187u64 * 495).to_le_bytes()));
    let back = decode_tables(&bytes).unwrap();
    assert_eq!(back.udslice_goal, 494);
    assert_eq!(back.p2_ep_uperm, t.p2_ep_uperm);
}

#[test]
fn new_with_cache_builds_on_rejected_bytes_and_reuses_good_ones() {
    let (fresh, to_store) = Solver5x5::new_with_cache(b"not a cache");
    let bytes = to_store.expect("rejected cache hands back fresh tables");
    assert_eq!(&bytes[..8], b"R3PRUN\0\0");
    let (reused, nothing) = Solver5x5::new_with_cache(&bytes);
    assert!(nothing.is_none());
    assert_eq!(reused.solver_3x3.pruning.p1_co_eo, fresh.solver_3x3.pruning.p1_co_eo);
    assert_eq!(reused.solver_3x3.pruning.p2_ep_uperm, fresh.solver_3x3.pruning.p2_ep_uperm);
    assert_eq!(reused.solver_3x3.pruning.udslice_goal, fresh.solver_3x3.pruning.udslice_goal);
}
