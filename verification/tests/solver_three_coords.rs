use rubiks_trainer::three::coords::{
    binomial, decode_co, decode_cp, decode_ep, decode_eo, decode_udslice, decode_udslice_mask,
    decode_udslice_perm, encode_co, encode_cp, encode_eo, encode_ep, encode_udslice, encode_udslice_perm,
    udslice_from_mask, N_UDSLICE,
};
use rubiks_trainer::three::state::EdgeState;

#[test]
fn co_round_trip() {
    for v in [0, 1, 1093, 2186] {
        let s = decode_co(v);
        assert_eq!(encode_co(&s), v);
    }
}

#[test]
fn eo_round_trip() {
    for v in [0, 1, 1024, 2047] {
        let s = decode_eo(v);
        assert_eq!(encode_eo(&s), v);
    }
}

#[test]
fn udslice_round_trip() {
    for v in [0, 1, 247, 494] {
        let s = decode_udslice(v);
        assert_eq!(encode_udslice(&s), v);
    }
}

#[test]
fn udslice_solved_value() {
    let solved = EdgeState::solved();
    assert_eq!(encode_udslice(&solved) as usize, N_UDSLICE - 1);
}

#[test]
fn cp_round_trip() {
    for v in [0u32, 1, 9999, 40319] {
        let s = decode_cp(v);
        assert_eq!(encode_cp(&s), v);
    }
}

#[test]
fn ep_round_trip() {
    for v in [0u32, 1, 9999, 40319] {
        let s = decode_ep(v);
        assert_eq!(encode_ep(&s), v);
    }
}

#[test]
fn udslice_perm_round_trip() {
    for v in 0u32..24 {
        let s = decode_udslice_perm(v);
        assert_eq!(encode_udslice_perm(&s), v);
    }
}

#[test]
fn binomial_smoke() {
    assert_eq!(binomial(12, 4), 495);
    assert_eq!(binomial(12, 0), 1);
    assert_eq!(binomial(12, 12), 1);
    assert_eq!(binomial(0, 0), 1);
}

#[test]
fn udslice_mask_round_trip_over_every_coordinate() {
    for v in 0u32..495 {
        let mask = decode_udslice_mask(v);
        assert_eq!(mask.iter().filter(|b| **b).count(), 4);
        assert_eq!(udslice_from_mask(&mask), v);
    }
}

#[test]
fn co_decode_keeps_twist_sum_a_multiple_of_three() {
    for v in [0u32, 5, 700, 2186] {
        let s = decode_co(v);
        let sum: u32 = s.orient.iter().map(|x| *x as u32).sum();
        assert_eq!(sum % 3, 0);
    }
}
