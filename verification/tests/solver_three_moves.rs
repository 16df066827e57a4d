use rubiks_trainer::cube::Cube;
use rubiks_trainer::moves::{Face, Turn};
use rubiks_trainer::three::moves::{derive_phase1_ops, phase2_to_move};
use rubiks_trainer::three::state::{corner_home_at, edge_home_at};

#[test]
fn corner_homes_match_cube_core() {
    let cube = Cube::solved(3).unwrap();
    for i in 0..8 {
        let h = corner_home_at(i);
        assert!(cube.cubies.iter().any(|c| c.solved_pos == h));
    }
    for i in 0..12 {
        let h = edge_home_at(i);
        assert!(cube.cubies.iter().any(|c| c.solved_pos == h));
    }
}

#[test]
fn derive_returns_18_ops_each() {
    let (c, e) = derive_phase1_ops();
    assert_eq!(c.len(), 18);
    assert_eq!(e.len(), 18);
}

#[test]
fn u_move_corners_dont_twist() {
    let (corner_ops, _) = derive_phase1_ops();
    assert!(corner_ops[0].orient.iter().all(|&o| o == 0), "U twisted a corner: {:?}", corner_ops[0].orient);
}

#[test]
fn r_squared_in_cycle_marks_eight_slots() {
    let (_, edge_ops) = derive_phase1_ops();
    let cycled = edge_ops[7].in_cycle.iter().filter(|&&x| x).count();
    assert_eq!(cycled, 4, "R² should cycle exactly 4 edge slots");
}

#[test]
fn phase2_indices_map_to_correct_moves() {
    let expected: [(Face, Turn); 10] = [
        (Face::U, Turn::Cw),
        (Face::U, Turn::Half),
        (Face::U, Turn::Ccw),
        (Face::D, Turn::Cw),
        (Face::D, Turn::Half),
        (Face::D, Turn::Ccw),
        (Face::R, Turn::Half),
        (Face::L, Turn::Half),
        (Face::F, Turn::Half),
        (Face::B, Turn::Half),
    ];
    for (i, exp) in expected.iter().enumerate() {
        assert_eq!(phase2_to_move(i), *exp);
    }
}
