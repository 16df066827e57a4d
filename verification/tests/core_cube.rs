use rubiks_trainer::cube::Cube;
use rubiks_trainer::error::CubeError;
use rubiks_trainer::moves::{Face, Move, MoveSeq, Turn};

fn r_cw() -> Move {
    Move::face(Face::R, Turn::Cw)
}

fn u_cw() -> Move {
    Move::face(Face::U, Turn::Cw)
}

#[test]
fn solved_3x3_has_26_visible_cubies() {
    let cube = Cube::solved(3).unwrap();
    assert_eq!(cube.cubie_count(), 26);
    assert!(cube.is_solved());
}

#[test]
fn solved_2x2_has_8_cubies() {
    assert_eq!(Cube::solved(2).unwrap().cubie_count(), 8);
}

#[test]
fn solved_4x4_has_56_cubies() {
    assert_eq!(Cube::solved(4).unwrap().cubie_count(), 56);
}

#[test]
fn solved_5x5_has_98_cubies() {
    assert_eq!(Cube::solved(5).unwrap().cubie_count(), 98);
}

#[test]
fn invalid_size_errors() {
    assert!(Cube::solved(1).is_err());
    assert!(Cube::solved(6).is_err());
    assert_eq!(Cube::solved(0).unwrap_err(), CubeError::InvalidSize(0));
}

#[test]
fn r_four_times_is_identity() {
    let mut cube = Cube::solved(3).unwrap();
    for _ in 0..4 {
        cube.apply(r_cw()).unwrap();
    }
    assert!(cube.is_solved());
}

#[test]
fn r_then_r_inverse_is_identity() {
    let mut cube = Cube::solved(3).unwrap();
    cube.apply(r_cw()).unwrap();
    cube.apply(r_cw().inverse()).unwrap();
    assert!(cube.is_solved());
}

#[test]
fn r_half_twice_is_identity() {
    let mut cube = Cube::solved(3).unwrap();
    let r2 = Move::face(Face::R, Turn::Half);
    cube.apply(r2).unwrap();
    cube.apply(r2).unwrap();
    assert!(cube.is_solved());
}

#[test]
fn cubie_count_invariant_across_random_sequence() {
    let mut cube = Cube::solved(4).unwrap();
    let count_before = cube.cubie_count();
    for &m in &[r_cw(), u_cw(), r_cw().inverse(), u_cw().inverse()] {
        cube.apply(m).unwrap();
    }
    assert_eq!(cube.cubie_count(), count_before);
}

#[test]
fn r_move_does_not_disturb_left_face() {
    let mut cube = Cube::solved(3).unwrap();
    let solved_left: Vec<_> = cube.cubies.iter().filter(|c| c.solved_pos.x <= 0).cloned().collect();
    cube.apply(r_cw()).unwrap();
    for c in cube.cubies.iter().filter(|c| c.solved_pos.x <= 0) {
        let original = solved_left.iter().find(|o| o.solved_pos == c.solved_pos).unwrap();
        assert_eq!(c.current_pos, original.current_pos);
        assert_eq!(c.orientation, original.orientation);
    }
}

#[test]
fn applying_move_then_inverse_restores_state_2x2() {
    let mut cube = Cube::solved(2).unwrap();
    let initial = cube.clone();
    let m = r_cw();
    cube.apply(m).unwrap();
    cube.apply(m.inverse()).unwrap();
    assert_eq!(cube, initial);
}

#[test]
fn depth_out_of_range_errors() {
    let mut cube = Cube::solved(3).unwrap();
    let m = Move { face: Face::R, turn: Turn::Cw, depth: 4, wide: false };
    assert!(cube.apply(m).is_err());
    assert_eq!(cube.apply(m), Err(CubeError::DepthOutOfRange { depth: 4, size: 3 }));
    let z = Move { face: Face::R, turn: Turn::Cw, depth: 0, wide: false };
    assert_eq!(cube.apply(z), Err(CubeError::ZeroDepth));
    assert!(cube.is_strictly_solved());
}

#[test]
fn whole_cube_rotation_y_keeps_pieces_in_place_relative_to_each_other() {
    let mut cube = Cube::solved(3).unwrap();
    let y = Move { face: Face::U, turn: Turn::Cw, depth: 3, wide: true };
    cube.apply(y).unwrap();
    for _ in 0..3 {
        cube.apply(y).unwrap();
    }
    assert!(cube.is_solved());
}

#[test]
fn sexy_move_six_times_is_identity() {
    let mut cube = Cube::solved(3).unwrap();
    let r = r_cw();
    let u = u_cw();
    let ri = r.inverse();
    let ui = u.inverse();
    for _ in 0..6 {
        cube.apply(r).unwrap();
        cube.apply(u).unwrap();
        cube.apply(ri).unwrap();
        cube.apply(ui).unwrap();
    }
    assert!(cube.is_solved());
}

#[test]
fn sexy_move_three_times_is_not_identity() {
    let mut cube = Cube::solved(3).unwrap();
    let r = r_cw();
    let u = u_cw();
    for _ in 0..3 {
        cube.apply(r).unwrap();
        cube.apply(u).unwrap();
        cube.apply(r.inverse()).unwrap();
        cube.apply(u.inverse()).unwrap();
    }
    assert!(!cube.is_solved());
}

#[test]
fn apply_seq_then_inverse_restores_a_4x4() {
    let mut cube = Cube::solved(4).unwrap();
    let seq = MoveSeq::parse("R U Rw' F2 2L D' b", 4).unwrap();
    cube.apply_seq(&seq).unwrap();
    assert!(!cube.is_solved());
    cube.apply_seq(&seq.inverse()).unwrap();
    assert!(cube.is_strictly_solved());
}

#[test]
fn after_leaves_the_original_untouched() {
    let cube = Cube::solved(3).unwrap();
    let moved = cube.after(r_cw()).unwrap();
    assert!(cube.is_solved());
    assert!(!moved.is_solved());
}

#[test]
fn four_quarter_turns_same_face_is_identity() {
    for size in 2..=5u8 {
        for face in [Face::U, Face::D, Face::L, Face::R, Face::F, Face::B] {
            for turn in [Turn::Cw, Turn::Ccw, Turn::Half] {
                for depth in 1..=size {
                    for wide in [false, true] {
                        let m = Move { face, turn, depth, wide };
                        let mut cube = Cube::solved(size).unwrap();
                        cube.apply(Move::face(Face::F, Turn::Cw)).unwrap();
                        let start = cube.clone();
                        for _ in 0..4 {
                            cube.apply(m).unwrap();
                        }
                        assert_eq!(cube, start, "{m:?} four times on a {size}x{size}");
                    }
                }
            }
        }
    }
}

#[test]
fn two_half_turns_same_face_is_identity() {
    for face in [Face::U, Face::D, Face::L, Face::R, Face::F, Face::B] {
        let mut cube = Cube::solved(3).unwrap();
        let m = Move::face(face, Turn::Half);
        cube.apply(m).unwrap();
        cube.apply(m).unwrap();
        assert!(cube.is_solved());
    }
}
