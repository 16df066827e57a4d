use rubiks_trainer::cube::Cube;
use rubiks_trainer::moves::{Face, Move, MoveSeq, Turn};
use rubiks_trainer::three::state::State3x3;

#[test]
fn solved_state_from_solved_cube() {
    let cube = Cube::solved(3).unwrap();
    let s = State3x3::from_cube(&cube);
    assert_eq!(s, State3x3::solved());
    assert!(s.is_solved());
    assert!(s.is_in_g1());
}

#[test]
fn solved_corner_orient_sum_is_zero() {
    let cube = Cube::solved(3).unwrap();
    let s = State3x3::from_cube(&cube);
    let sum: u32 = s.corners.orient.iter().map(|x| *x as u32).sum();
    assert_eq!(sum % 3, 0);
}

#[test]
fn corner_orient_invariant_after_face_turn() {
    for face in Face::ALL {
        let mut cube = Cube::solved(3).unwrap();
        cube.apply(Move::face(face, Turn::Cw)).unwrap();
        let s = State3x3::from_cube(&cube);
        let sum: u32 = s.corners.orient.iter().map(|x| *x as u32).sum();
        assert_eq!(sum % 3, 0, "corner orient sum invariant broken by {face:?} Cw");
    }
}

#[test]
fn edge_orient_invariant_under_phase2_moves() {
    let phase2 = ["U", "D", "R2", "L2", "F2", "B2", "U'", "D'"];
    for s in phase2 {
        let mut cube = Cube::solved(3).unwrap();
        let seq = MoveSeq::parse(s, 3).unwrap();
        cube.apply_seq(&seq).unwrap();
        let st = State3x3::from_cube(&cube);
        assert!(st.edges.orient.iter().all(|&o| o == 0), "EO not preserved by Phase 2 move {s}: {:?}", st.edges.orient);
    }
}

#[test]
fn r_quarter_turn_changes_eo() {
    let mut cube = Cube::solved(3).unwrap();
    cube.apply(Move::face(Face::R, Turn::Cw)).unwrap();
    let s = State3x3::from_cube(&cube);
    let flipped: u32 = s.edges.orient.iter().map(|x| *x as u32).sum();
    assert_eq!(flipped, 4);
    assert_eq!(flipped % 2, 0);
}

#[test]
fn f_quarter_turn_flips_two_edges() {
    let mut cube = Cube::solved(3).unwrap();
    cube.apply(Move::face(Face::F, Turn::Cw)).unwrap();
    let s = State3x3::from_cube(&cube);
    let flipped: u32 = s.edges.orient.iter().map(|x| *x as u32).sum();
    assert_eq!(flipped, 2);
}

#[test]
fn r_squared_preserves_eo() {
    let mut cube = Cube::solved(3).unwrap();
    cube.apply(Move::face(Face::R, Turn::Half)).unwrap();
    let s = State3x3::from_cube(&cube);
    assert!(s.edges.orient.iter().all(|&o| o == 0));
}

#[test]
fn r_squared_keeps_in_g1() {
    let mut cube = Cube::solved(3).unwrap();
    cube.apply(Move::face(Face::R, Turn::Half)).unwrap();
    let s = State3x3::from_cube(&cube);
    assert!(s.is_in_g1());
}

#[test]
fn r_quarter_leaves_g1() {
    let mut cube = Cube::solved(3).unwrap();
    cube.apply(Move::face(Face::R, Turn::Cw)).unwrap();
    let s = State3x3::from_cube(&cube);
    assert!(!s.is_in_g1());
}
