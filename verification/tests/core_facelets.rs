use rand::SeedableRng;
use rand_chacha::ChaCha8Rng;
use rubiks_trainer::cube::Cube;
use rubiks_trainer::error::FaceletValidationError;
use rubiks_trainer::facelets::{Color, Facelets};
use rubiks_trainer::moves::{Face, Move, MoveSeq, Turn};
use rubiks_trainer::scramble::random_move_scramble;

#[test]
fn solved_facelets_have_uniform_faces() {
    let f = Facelets::solved(3);
    for face in Face::ALL {
        for row in 0..3 {
            for col in 0..3 {
                let expected = match face {
                    Face::U => Color::U,
                    Face::D => Color::D,
                    Face::F => Color::F,
                    Face::B => Color::B,
                    Face::R => Color::R,
                    Face::L => Color::L,
                };
                assert_eq!(f.get(face, row, col), expected, "{face:?}({row},{col})");
            }
        }
    }
}

#[test]
fn from_solved_cube_matches_solved_facelets() {
    for size in 2..=5u8 {
        let cube = Cube::solved(size).unwrap();
        assert_eq!(Facelets::from_cube(&cube), Facelets::solved(size));
    }
}

#[test]
fn round_trip_solved_cube() {
    for size in 2..=5u8 {
        let cube = Cube::solved(size).unwrap();
        let f = Facelets::from_cube(&cube);
        let back = f.try_into_cube().unwrap();
        assert_eq!(back, cube);
    }
}

#[test]
fn round_trip_after_one_move_3x3() {
    let mut cube = Cube::solved(3).unwrap();
    cube.apply(Move::face(Face::R, Turn::Cw)).unwrap();
    let f = Facelets::from_cube(&cube);
    let back = f.try_into_cube().unwrap();
    assert_eq!(Facelets::from_cube(&back), f);
}

#[test]
fn round_trip_long_sequence_4x4() {
    let mut cube = Cube::solved(4).unwrap();
    let seq = MoveSeq::parse("R U R' U' Rw F2 D' L Rw' B U2 r u' f' L'", 4).unwrap();
    cube.apply_seq(&seq).unwrap();
    let f = Facelets::from_cube(&cube);
    let back = f.try_into_cube().unwrap();
    assert_eq!(Facelets::from_cube(&back), f);
}

#[test]
fn validate_solved_cube_has_no_errors() {
    for size in 2..=5u8 {
        let f = Facelets::solved(size);
        f.validate().unwrap_or_else(|e| panic!("size {size} validate err: {e:?}"));
    }
}

#[test]
fn validate_after_random_scrambles_passes() {
    let mut rng = ChaCha8Rng::seed_from_u64(0xC0FFEE);
    for size in 2..=5u8 {
        let mut cube = Cube::solved(size).unwrap();
        let seq = random_move_scramble(size, 30, &mut rng);
        cube.apply_seq(&seq).unwrap();
        let f = Facelets::from_cube(&cube);
        f.validate().unwrap_or_else(|e| panic!("size {size}: {e:?}"));
    }
}

#[test]
fn validate_bad_color_count_detected() {
    let mut f = Facelets::solved(3);
    f.set(Face::U, 0, 0, Color::D);
    let errs = f.validate().unwrap_err();
    assert!(errs.iter().any(|e| matches!(e, FaceletValidationError::BadColorCount { color: Color::U, .. })));
    assert!(errs.iter().any(|e| matches!(e, FaceletValidationError::BadColorCount { color: Color::D, .. })));
}

#[test]
fn validate_single_edge_flip_detected() {
    let mut f = Facelets::solved(3);
    let u_ur = f.get(Face::U, 1, 2);
    let r_ur = f.get(Face::R, 0, 1);
    f.set(Face::U, 1, 2, r_ur);
    f.set(Face::R, 0, 1, u_ur);
    let errs = f.validate().unwrap_err();
    assert!(
        errs.iter().any(|e| matches!(e, FaceletValidationError::EdgeOrientationSum { .. })),
        "expected EdgeOrientationSum; got {errs:?}",
    );
}

#[test]
fn validate_two_pieces_swap_reports_not_reachable() {
    let mut f = Facelets::solved(3);
    let r = f.get(Face::R, 0, 0);
    let l = f.get(Face::L, 0, 2);
    f.set(Face::R, 0, 0, l);
    f.set(Face::L, 0, 2, r);
    let errs = f.validate().unwrap_err();
    assert!(
        errs.iter().any(|e| matches!(e, FaceletValidationError::NotReachable)),
        "expected NotReachable error; got {errs:?}"
    );
}

#[test]
fn validate_reports_wrong_length() {
    let f = Facelets { size: 3, stickers: vec![Color::U; 10] };
    let errs = f.validate().unwrap_err();
    assert_eq!(errs, vec![FaceletValidationError::BadFaceletLength { got: 10, expected: 54 }]);
}

#[test]
fn try_into_cube_rejects_wrong_length() {
    let f = Facelets { size: 3, stickers: vec![Color::U; 10] };
    assert!(f.try_into_cube().is_err());
}

#[test]
fn color_symbols() {
    assert_eq!(Color::U.symbol(), 'U');
    assert_eq!(Color::L.symbol(), 'L');
}

#[test]
fn cube_to_facelets_round_trip_on_seeded_scrambles() {
    let mut rng = ChaCha8Rng::seed_from_u64(7);
    for size in 2..=5u8 {
        for len in [0usize, 1, 5, 17, 39] {
            let seq = random_move_scramble(size, len, &mut rng);
            let mut cube = Cube::solved(size).unwrap();
            cube.apply_seq(&seq).unwrap();
            let f = Facelets::from_cube(&cube);
            let back = f.try_into_cube().unwrap();
            assert_eq!(Facelets::from_cube(&back), f);
        }
    }
}
