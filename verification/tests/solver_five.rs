use rubiks_trainer::cube::Cube;
use rubiks_trainer::facelets::{Color, Facelets};
use rubiks_trainer::five::{
    centers_solved, edges_assembled, is_reduced, project_to_3x3, Solve5x5Error, Solver5x5,
};
use rubiks_trainer::moves::{Face, Move, MoveSeq, Turn};

#[test]
fn solved_5x5_is_reduced() {
    let cube = Cube::solved(5).unwrap();
    let f = Facelets::from_cube(&cube);
    assert!(centers_solved(&f));
    assert!(edges_assembled(&f));
    assert!(is_reduced(&f));
}

#[test]
fn five_outer_only_scramble_keeps_reduction() {
    let mut cube = Cube::solved(5).unwrap();
    cube.apply_seq(&MoveSeq::parse("R U R' U' F U F' U", 5).unwrap()).unwrap();
    let f = Facelets::from_cube(&cube);
    assert!(centers_solved(&f), "centers disturbed by outer-only scramble");
    assert!(edges_assembled(&f), "edges disassembled by outer-only scramble");
}

#[test]
fn inner_slice_breaks_reduction() {
    let mut cube = Cube::solved(5).unwrap();
    cube.apply(Move { face: Face::R, turn: Turn::Cw, depth: 2, wide: false }).unwrap();
    let f = Facelets::from_cube(&cube);
    assert!(!is_reduced(&f), "single 2R should break reduction");
}

#[test]
fn deepest_slice_breaks_reduction() {
    let mut cube = Cube::solved(5).unwrap();
    cube.apply(Move { face: Face::R, turn: Turn::Cw, depth: 3, wide: false }).unwrap();
    let f = Facelets::from_cube(&cube);
    assert!(!is_reduced(&f), "single 3R should break reduction");
}

#[test]
fn five_project_to_3x3_of_solved_is_solved_3x3() {
    let cube = Cube::solved(5).unwrap();
    let f5 = Facelets::from_cube(&cube);
    let f3 = project_to_3x3(&f5);
    assert_eq!(f3, Facelets::solved(3));
}

#[test]
fn five_solver_handles_solved_cube() {
    let s = Solver5x5::new();
    let cube = Cube::solved(5).unwrap();
    let seq = s.solve(&cube).unwrap();
    assert!(seq.is_empty(), "solved cube should produce empty solution, got {:?}", seq.to_notation());
}

#[test]
fn five_solver_rejects_wrong_size() {
    let s = Solver5x5::new();
    let cube = Cube::solved(3).unwrap();
    assert!(matches!(s.solve(&cube), Err(Solve5x5Error::WrongSize(3))));
}

#[test]
fn five_solver_rejects_unreduced() {
    let s = Solver5x5::new();
    let mut cube = Cube::solved(5).unwrap();
    cube.apply(Move { face: Face::R, turn: Turn::Cw, depth: 2, wide: false }).unwrap();
    assert!(matches!(s.solve(&cube), Err(Solve5x5Error::NotReducedYet)));
}

#[test]
fn five_solver_solves_outer_only_scrambles() {
    let s = Solver5x5::new();
    for scramble_str in ["R", "U", "F", "R'", "U2"] {
        let scramble = MoveSeq::parse(scramble_str, 5).unwrap();
        let mut cube = Cube::solved(5).unwrap();
        cube.apply_seq(&scramble).unwrap();
        let solution = s.solve(&cube).unwrap_or_else(|e| {
            panic!("solve failed for {scramble_str:?}: {e:?}");
        });
        cube.apply_seq(&solution).unwrap();
        assert!(cube.is_solved(), "scramble {scramble_str:?} → solution {:?} did not solve", solution.to_notation());
    }
}

#[test]
fn one_off_edge_sticker_breaks_assembly() {
    let mut f = Facelets::solved(5);
    f.set(Face::F, 0, 3, Color::B);
    assert!(centers_solved(&f));
    assert!(!edges_assembled(&f));
    let mut g = Facelets::solved(5);
    g.set(Face::F, 2, 2, Color::B);
    assert!(!centers_solved(&g));
}
