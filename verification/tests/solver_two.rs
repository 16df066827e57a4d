use rubiks_trainer::cube::Cube;
use rubiks_trainer::moves::{Face, Move, MoveSeq, Turn};
use rubiks_trainer::two::{derive_move_ops, Solve2x2Error, Solver2x2, State2x2, GODS_NUMBER_2X2, NUM_2X2_STATES};

#[test]
fn solved_state_index_is_zero() {
    assert_eq!(State2x2::solved().index(), 0);
}

#[test]
fn index_round_trip() {
    let states = [
        State2x2::solved(),
        State2x2 { perm: [0, 1, 2, 4, 6, 3, 5], orient: [0, 0, 0, 2, 1, 1, 2] },
        State2x2 { perm: [6, 5, 4, 3, 2, 1, 0], orient: [0, 1, 2, 0, 1, 2, 0] },
    ];
    for s in states {
        let idx = s.index();
        let back = State2x2::from_index(idx);
        assert_eq!(back, s, "round-trip failed for {s:?}");
    }
}

#[test]
fn move_ops_derive_for_all_nine() {
    let ops = derive_move_ops();
    assert_eq!(ops.len(), 9);
}

#[test]
fn r_then_r_inverse_returns_to_solved_via_state() {
    let ops = derive_move_ops();
    let r_cw = &ops[0].0;
    let r_ccw = &ops[2].0;
    let solved = State2x2::solved();
    let after = solved.apply_op(r_cw).apply_op(r_ccw);
    assert_eq!(after, solved);
}

#[test]
fn r_four_times_returns_to_solved_via_state() {
    let ops = derive_move_ops();
    let r_cw = &ops[0].0;
    let mut s = State2x2::solved();
    for _ in 0..4 {
        s = s.apply_op(r_cw);
    }
    assert_eq!(s, State2x2::solved());
}

#[test]
fn corner_twist_sum_invariant_after_one_move() {
    for face in [Face::R, Face::U, Face::F] {
        for turn in [Turn::Cw, Turn::Half, Turn::Ccw] {
            let mut cube = Cube::solved(2).unwrap();
            cube.apply(Move::face(face, turn)).unwrap();
            let s = State2x2::from_cube(&cube).unwrap();
            let sum: u32 = s.orient.iter().map(|x| *x as u32).sum();
            assert_eq!(sum % 3, 0, "twist sum invariant violated for {face:?} {turn:?}: {:?}", s.orient);
        }
    }
}

#[test]
fn two_solver_solves_solved_to_empty() {
    let s = Solver2x2::new();
    let cube = Cube::solved(2).unwrap();
    let seq = s.solve(&cube).unwrap();
    assert!(seq.is_empty());
}

#[test]
fn solver_distance_table_full_orbit_size() {
    let s = Solver2x2::new();
    let reachable = s.distances().iter().filter(|&&d| d != u8::MAX).count();
    assert_eq!(reachable, 3_674_160);
    assert_eq!(reachable, NUM_2X2_STATES);
}

#[test]
fn solver_max_distance_is_gods_number() {
    let s = Solver2x2::new();
    let max = s.distances().iter().filter(|&&d| d != u8::MAX).max().unwrap();
    assert_eq!(*max, GODS_NUMBER_2X2);
}

#[test]
fn solver_round_trips_short_scrambles() {
    let s = Solver2x2::new();
    let scramble_strs = ["R U F", "R U' R'", "R2 F U' F2", "F R U R' U' F'"];
    for scr_s in scramble_strs {
        let scramble = MoveSeq::parse(scr_s, 2).unwrap();
        let mut cube = Cube::solved(2).unwrap();
        cube.apply_seq(&scramble).unwrap();
        let solution = s.solve(&cube).unwrap();
        cube.apply_seq(&solution).unwrap();
        assert!(cube.is_solved(), "scramble {scr_s:?} → solution {:?} did not solve", solution.to_notation());
    }
}

#[test]
fn two_solver_distance_matches_solution_length() {
    let s = Solver2x2::new();
    let mut cube = Cube::solved(2).unwrap();
    cube.apply_seq(&MoveSeq::parse("R U", 2).unwrap()).unwrap();
    let state = State2x2::from_cube(&cube).unwrap();
    assert!(s.is_reachable(&state));
    assert_eq!(s.distance(&state), Some(2));
    assert_eq!(s.solve_state(&state).unwrap().len(), 2);
}

#[test]
fn two_solver_rejects_wrong_size() {
    let s = Solver2x2::new();
    let cube = Cube::solved(3).unwrap();
    assert_eq!(s.solve(&cube), Err(Solve2x2Error::WrongSize(3)));
}

#[test]
fn two_solver_solutions_leave_every_piece_strictly_home() {
    let s = Solver2x2::new();
    let scramble_strs = ["R U2 F' R' U F2 R2 U'", "F2 U R' F U' R2 F' U2 R", "U R U' R' F' U F R2"];
    for scr_s in scramble_strs {
        let scramble = MoveSeq::parse(scr_s, 2).unwrap();
        let mut cube = Cube::solved(2).unwrap();
        cube.apply_seq(&scramble).unwrap();
        let solution = s.solve(&cube).unwrap();
        cube.apply_seq(&solution).unwrap();
        assert!(cube.is_strictly_solved(), "scramble {scr_s:?} left pieces off home");
    }
}
