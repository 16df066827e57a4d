use rand::SeedableRng;
use rand_chacha::ChaCha8Rng;
use rubiks_trainer::cube::Cube;
use rubiks_trainer::scramble::{default_length, random_move_scramble, wca_scramble};

fn rng() -> ChaCha8Rng {
    ChaCha8Rng::seed_from_u64(0xC0FFEE)
}

#[test]
fn scramble_has_expected_length() {
    let mut r = rng();
    for size in 2..=5u8 {
        let seq = wca_scramble(size, &mut r);
        assert_eq!(seq.len(), default_length(size));
    }
}

#[test]
fn scramble_no_consecutive_same_face() {
    let mut r = rng();
    let seq = wca_scramble(3, &mut r);
    for w in seq.0.windows(2) {
        assert_ne!(w[0].face, w[1].face);
    }
}

#[test]
fn scramble_no_axis_sandwich() {
    let mut r = rng();
    let seq = wca_scramble(3, &mut r);
    for w in seq.0.windows(3) {
        if w[0].face.axis() == w[1].face.axis() {
            assert_ne!(w[2].face.axis(), w[0].face.axis(), "axis sandwich at {:?} {:?} {:?}", w[0], w[1], w[2]);
        }
    }
}

#[test]
fn scramble_applies_cleanly_to_every_size() {
    let mut r = rng();
    for size in 2..=5u8 {
        let mut cube = Cube::solved(size).unwrap();
        let seq = wca_scramble(size, &mut r);
        cube.apply_seq(&seq).unwrap();
        assert_eq!(cube.cubie_count(), Cube::solved(size).unwrap().cubie_count());
    }
}

#[test]
fn scramble_inverse_returns_to_solved() {
    let mut r = rng();
    for size in 2..=5u8 {
        let mut cube = Cube::solved(size).unwrap();
        let seq = wca_scramble(size, &mut r);
        cube.apply_seq(&seq).unwrap();
        cube.apply_seq(&seq.inverse()).unwrap();
        assert!(cube.is_solved());
    }
}

#[test]
fn default_lengths_per_size() {
    assert_eq!(default_length(2), 11);
    assert_eq!(default_length(3), 25);
    assert_eq!(default_length(4), 40);
    assert_eq!(default_length(5), 60);
    assert_eq!(default_length(7), 0);
}

#[test]
fn explicit_length_scramble_uses_wide_moves_only_on_big_cubes() {
    let mut r = rng();
    let small = random_move_scramble(3, 200, &mut r);
    assert_eq!(small.len(), 200);
    assert!(small.0.iter().all(|m| m.depth == 1 && !m.wide));
    let big = random_move_scramble(5, 200, &mut r);
    assert!(big.0.iter().all(|m| m.depth <= 2));
}
