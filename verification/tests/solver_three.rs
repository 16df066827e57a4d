use rubiks_trainer::cube::Cube;
use rubiks_trainer::moves::{Face, Move, MoveSeq, Turn};
use rubiks_trainer::three::solver::{Solve3x3Error, Solver3x3};
use rubiks_trainer::three::state::State3x3;

#[test]
fn phase1_for_f_scramble_returns_one_move() {
    let s = Solver3x3::new();
    let mut cube = Cube::solved(3).unwrap();
    cube.apply(Move::face(Face::F, Turn::Cw)).unwrap();
    let state = State3x3::from_cube(&cube);
    let _h = s.phase1_heuristic(&state);
    let path = s.phase1_search(&state).expect("phase1 must find G1");
    assert!(path.len() <= 2, "expected ≤ 2 phase1 moves, got {}", path.len());
}

#[test]
fn solver_solver_solves_solved_to_empty() {
    let s = Solver3x3::new();
    let cube = Cube::solved(3).unwrap();
    let seq = s.solve(&cube).unwrap();
    assert!(seq.is_empty());
}

#[test]
fn solver_solves_simple_scrambles() {
    let s = Solver3x3::new();
    for scramble in ["R", "U", "F", "R'", "U'", "U2", "F'"] {
        let scr = MoveSeq::parse(scramble, 3).unwrap();
        let mut cube = Cube::solved(3).unwrap();
        cube.apply_seq(&scr).unwrap();
        let solution = s.solve(&cube).unwrap();
        cube.apply_seq(&solution).unwrap();
        assert!(cube.is_solved(), "scramble {scramble:?} → {solution:?} did not solve");
    }
}

#[test]
fn solver_solves_full_face_turn() {
    let s = Solver3x3::new();
    for face in Face::ALL {
        for turn in [Turn::Cw, Turn::Half, Turn::Ccw] {
            let mut cube = Cube::solved(3).unwrap();
            cube.apply(Move::face(face, turn)).unwrap();
            let solution = s.solve(&cube).unwrap();
            cube.apply_seq(&solution).unwrap();
            assert!(cube.is_solved(), "{face:?} {turn:?} solution failed");
        }
    }
}

#[test]
fn three_solver_rejects_wrong_size() {
    let s = Solver3x3::new();
    let cube = Cube::solved(2).unwrap();
    assert_eq!(s.solve(&cube), Err(Solve3x3Error::WrongSize(2)));
}

#[test]
fn phase1_search_from_g1_state_is_empty() {
    let s = Solver3x3::new();
    let mut cube = Cube::solved(3).unwrap();
    cube.apply_seq(&MoveSeq::parse("U R2 D F2", 3).unwrap()).unwrap();
    let state = State3x3::from_cube(&cube);
    assert!(state.is_in_g1());
    assert_eq!(s.phase1_heuristic(&state), 0);
    assert_eq!(s.phase1_search(&state), Some(Vec::new()));
}
