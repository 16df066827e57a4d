use rubiks_trainer::cube::Cube;
use rubiks_trainer::facelets::Facelets;
use rubiks_trainer::four::{
    centers_solved, edges_paired, is_reduced, project_to_3x3, Solve4x4Error, Solver4x4, OLL_PARITY_ALG,
    PLL_PARITY_ALG,
};
use rubiks_trainer::moves::{Face, Move, MoveSeq, Turn};

#[test]
fn solved_4x4_is_reduced() {
    let cube = Cube::solved(4).unwrap();
    let f = Facelets::from_cube(&cube);
    assert!(centers_solved(&f));
    assert!(edges_paired(&f));
    assert!(is_reduced(&f));
}

#[test]
fn four_outer_only_scramble_keeps_reduction() {
    let mut cube = Cube::solved(4).unwrap();
    cube.apply_seq(&MoveSeq::parse("R U R' U' F U F' U", 4).unwrap()).unwrap();
    let f = Facelets::from_cube(&cube);
    assert!(centers_solved(&f), "centers disturbed by outer-only scramble");
    assert!(edges_paired(&f), "edges unpaired by outer-only scramble");
}

#[test]
fn single_inner_slice_breaks_reduction() {
    let mut cube = Cube::solved(4).unwrap();
    cube.apply(Move { face: Face::R, turn: Turn::Cw, depth: 2, wide: true }).unwrap();
    let f = Facelets::from_cube(&cube);
    assert!(!is_reduced(&f), "single Rw should break reduction");
}

#[test]
fn parity_fix_algs_parse() {
    let _ = MoveSeq::parse(OLL_PARITY_ALG, 4).unwrap();
    let _ = MoveSeq::parse(PLL_PARITY_ALG, 4).unwrap();
}

#[test]
fn parity_fix_algs_round_trip_with_inverse() {
    for alg_str in [OLL_PARITY_ALG, PLL_PARITY_ALG] {
        let alg = MoveSeq::parse(alg_str, 4).unwrap();
        let inv = alg.inverse();
        let mut cube = Cube::solved(4).unwrap();
        cube.apply_seq(&alg).unwrap();
        cube.apply_seq(&inv).unwrap();
        assert!(cube.is_solved(), "alg {alg_str:?} + inverse did not visually solve");
    }
}

#[test]
fn pll_parity_alg_is_order_two() {
    let alg = MoveSeq::parse(PLL_PARITY_ALG, 4).unwrap();
    let mut cube = Cube::solved(4).unwrap();
    cube.apply_seq(&alg).unwrap();
    cube.apply_seq(&alg).unwrap();
    assert!(cube.is_solved(), "PLL parity is not order-2 for {PLL_PARITY_ALG:?}");
}

#[test]
fn four_project_to_3x3_of_solved_is_solved_3x3() {
    let cube = Cube::solved(4).unwrap();
    let f4 = Facelets::from_cube(&cube);
    let f3 = project_to_3x3(&f4);
    assert_eq!(f3, Facelets::solved(3));
}

#[test]
fn four_solver_handles_solved_cube() {
    let s = Solver4x4::new();
    let cube = Cube::solved(4).unwrap();
    let seq = s.solve(&cube).unwrap();
    assert!(seq.is_empty(), "solved cube should produce empty solution, got {:?}", seq.to_notation());
}

#[test]
fn four_solver_rejects_wrong_size() {
    let s = Solver4x4::new();
    let cube = Cube::solved(3).unwrap();
    assert!(matches!(s.solve(&cube), Err(Solve4x4Error::WrongSize(3))));
}

#[test]
fn four_solver_rejects_unreduced() {
    let s = Solver4x4::new();
    let mut cube = Cube::solved(4).unwrap();
    cube.apply(Move { face: Face::R, turn: Turn::Cw, depth: 2, wide: true }).unwrap();
    assert!(matches!(s.solve(&cube), Err(Solve4x4Error::NotReducedYet)));
}

#[test]
fn four_solver_solves_outer_only_scrambles() {
    let s = Solver4x4::new();
    for scramble_str in ["R", "U", "F", "R U", "R U R'", "U R U' R'"] {
        let scramble = MoveSeq::parse(scramble_str, 4).unwrap();
        let mut cube = Cube::solved(4).unwrap();
        cube.apply_seq(&scramble).unwrap();
        let solution = s.solve(&cube).unwrap_or_else(|e| {
            panic!("solve failed for {scramble_str:?}: {e:?}");
        });
        cube.apply_seq(&solution).unwrap();
        assert!(cube.is_solved(), "scramble {scramble_str:?} → solution {:?} did not solve", solution.to_notation());
    }
}

#[test]
fn projection_samples_outer_corners_and_inner_edges() {
    let mut f = Facelets::solved(4);
    f.set(Face::U, 0, 2, rubiks_trainer::facelets::Color::D);
    f.set(Face::U, 0, 1, rubiks_trainer::facelets::Color::F);
    let p = project_to_3x3(&f);
    assert_eq!(p.get(Face::U, 0, 1), rubiks_trainer::facelets::Color::F);
    assert_eq!(p.get(Face::U, 0, 0), rubiks_trainer::facelets::Color::U);
}
