use rubiks_trainer::input::{drag_move, face_axis_of};
use rubiks_trainer::moves::{Face, Move, Turn};
use rubiks_trainer::vec3::IVec3;

/// Resolve a world-space drag as the input layer does: project it on the
/// two in-plane axes, keep the dominant one and its sign.
fn decide(world_face: IVec3, cubie_pos: IVec3, drag: [f32; 3], size: u8) -> Option<Move> {
    let face_axis = face_axis_of(world_face);
    let (u, v) = match face_axis {
        0 => (1, 2),
        1 => (0, 2),
        _ => (0, 1),
    };
    let du = drag[u];
    let dv = drag[v];
    let along_first = du.abs() > dv.abs();
    let d = if along_first { du } else { dv };
    let sign = if d.signum() > 0.0 { 1 } else { -1 };
    drag_move(cubie_pos, face_axis, along_first, sign, size)
}

#[test]
fn drag_back_on_urf_r_sticker_is_u_ccw() {
    let move_data = decide(IVec3::new(1, 0, 0), IVec3::new(2, 2, 2), [0.0, 0.0, -1.0], 3).unwrap();
    assert_eq!(move_data.face, Face::U);
    assert_eq!(move_data.turn, Turn::Ccw);
    assert_eq!(move_data.depth, 1);
    assert!(!move_data.wide);
}

#[test]
fn drag_down_on_urf_r_sticker_is_f_cw() {
    let m = decide(IVec3::new(1, 0, 0), IVec3::new(2, 2, 2), [0.0, -1.0, 0.0], 3).unwrap();
    assert_eq!(m.face, Face::F);
    assert_eq!(m.turn, Turn::Cw);
}

#[test]
fn middle_slice_drag_uses_inner_depth() {
    let m = decide(IVec3::new(1, 0, 0), IVec3::new(2, 0, 2), [0.0, 0.0, -1.0], 3).unwrap();
    assert_eq!(m.face, Face::U);
    assert_eq!(m.depth, 2);
    assert!(!m.wide);
}

#[test]
fn drag_on_4x4_inner_layer_picks_inner_slice() {
    let m = decide(IVec3::new(1, 0, 0), IVec3::new(3, 3, 1), [0.0, -1.0, 0.0], 4).unwrap();
    assert_eq!(m.face, Face::F);
    assert_eq!(m.depth, 2);
    assert!(!m.wide);
    let after = m.rotation().apply(IVec3::new(3, 3, 1));
    let dy = (after.y - 3) as f32;
    assert!(dy < 0.0, "expected -Y motion; got {after:?}");
}

#[test]
fn world_face_drives_decision_after_rotation() {
    let world_face_after = IVec3::new(0, 1, 0);
    let cubie_pos_after = IVec3::new(-2, 2, 2);
    let m = decide(world_face_after, cubie_pos_after, [1.0, 0.0, 0.0], 3).unwrap();
    let after = m.rotation().apply(cubie_pos_after);
    let dx = (after.x - cubie_pos_after.x) as f32;
    assert!(dx > 0.0, "drag +X must move cubie in +X; got move={m:?}, motion.x={dx}");
}

#[test]
fn face_axis_is_first_nonzero_component() {
    assert_eq!(face_axis_of(IVec3::new(-1, 0, 0)), 0);
    assert_eq!(face_axis_of(IVec3::new(0, 1, 0)), 1);
    assert_eq!(face_axis_of(IVec3::new(0, 0, -1)), 2);
    assert_eq!(face_axis_of(IVec3::new(0, 0, 0)), 2);
}

#[test]
fn drag_on_negative_outer_layer_turns_opposite_face() {
    // Piece on the left layer of a 3x3, sticker facing +Y, drag along z.
    let m = drag_move(IVec3::new(-2, 2, 0), 1, false, 1, 3).unwrap();
    assert_eq!(m.face, Face::L);
    assert_eq!(m.depth, 1);
    let after = m.rotation().apply(IVec3::new(-2, 2, 0));
    assert!(after.z > 0);
}

#[test]
fn drag_on_5x5_inner_negative_layer() {
    // 5x5: outer = 4, piece at z = -2 is the second layer from the back.
    let m = drag_move(IVec3::new(4, 4, -2), 0, true, -1, 5).unwrap();
    assert_eq!(m.face, Face::B);
    assert_eq!(m.depth, 2);
    let after = m.rotation().apply(IVec3::new(4, 4, -2));
    assert!(after.y < 4);
}

#[test]
fn drag_on_the_core_gives_no_move() {
    // The core lies on every turning axis, so no turn moves it.
    assert_eq!(drag_move(IVec3::new(0, 0, 0), 1, true, 1, 3), None);
}
