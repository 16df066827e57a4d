use rubiks_trainer::moves::{Face, Move, MoveSeq, Turn};

#[test]
fn turn_inverse_round_trip() {
    for t in [Turn::Cw, Turn::Ccw, Turn::Half] {
        assert_eq!(t.inverse().inverse(), t);
    }
}

#[test]
fn turn_steps_round_trip() {
    for t in [Turn::Cw, Turn::Ccw, Turn::Half] {
        assert_eq!(Turn::from_steps(t.steps()), Some(t));
    }
    assert_eq!(Turn::from_steps(0), None);
    assert_eq!(Turn::from_steps(4), None);
}

#[test]
fn move_inverse_combines_to_identity_steps() {
    let m = Move::face(Face::R, Turn::Cw);
    let inv = m.inverse();
    assert_eq!((m.turn.steps() + inv.turn.steps()) % 4, 0);
}

#[test]
fn cancel_removes_inverse_pair() {
    let r = Move::face(Face::R, Turn::Cw);
    let r_inv = Move::face(Face::R, Turn::Ccw);
    let seq = MoveSeq::from_vec(vec![r, r_inv]);
    assert!(seq.cancel().is_empty());
}

#[test]
fn cancel_combines_two_quarters_to_half() {
    let r = Move::face(Face::R, Turn::Cw);
    let seq = MoveSeq::from_vec(vec![r, r]);
    let canceled = seq.cancel();
    assert_eq!(canceled.0, vec![Move::face(Face::R, Turn::Half)]);
}

#[test]
fn cancel_does_not_merge_different_faces() {
    let r = Move::face(Face::R, Turn::Cw);
    let u = Move::face(Face::U, Turn::Cw);
    let seq = MoveSeq::from_vec(vec![r, u, r]);
    assert_eq!(seq.cancel().0, vec![r, u, r]);
}

#[test]
fn r_outer_layer_coord_is_n_minus_1() {
    assert_eq!(Move::layer_coord(Face::R, 3, 1), 2);
    assert_eq!(Move::layer_coord(Face::L, 3, 1), -2);
    assert_eq!(Move::layer_coord(Face::L, 3, 2), 0);
}

#[test]
fn cancel_merges_half_and_quarter_into_inverse_quarter() {
    let r2 = Move::face(Face::R, Turn::Half);
    let r = Move::face(Face::R, Turn::Cw);
    let seq = MoveSeq::from_vec(vec![r2, r]);
    assert_eq!(seq.cancel().0, vec![Move::face(Face::R, Turn::Ccw)]);
}

#[test]
fn cancel_is_idempotent_on_an_example() {
    let r = Move::face(Face::R, Turn::Cw);
    let u = Move::face(Face::U, Turn::Ccw);
    let seq = MoveSeq::from_vec(vec![r, r, u, u, u, r]);
    let once = seq.cancel();
    assert_eq!(once.cancel(), once);
}

#[test]
fn sequence_inverse_twice_is_original() {
    let seq = MoveSeq::from_vec(vec![
        Move::face(Face::R, Turn::Cw),
        Move::face(Face::U, Turn::Half),
        Move::face(Face::F, Turn::Ccw),
    ]);
    assert_eq!(seq.inverse().inverse(), seq);
    assert_eq!(seq.inverse().0[0], Move::face(Face::F, Turn::Cw));
}

#[test]
fn face_axis_and_opposite() {
    assert_eq!(Face::R.axis(), 0);
    assert_eq!(Face::U.axis(), 1);
    assert_eq!(Face::F.axis(), 2);
    assert_eq!(Face::L.opposite(), Face::R);
    assert_eq!(Face::D.axis_sign(), -1);
    assert_eq!(Face::B.symbol(), 'B');
}

#[test]
fn iter_yields_moves_in_order() {
    let seq = MoveSeq::from_vec(vec![Move::face(Face::R, Turn::Cw), Move::face(Face::U, Turn::Half)]);
    let collected: Vec<Move> = seq.iter().copied().collect();
    assert_eq!(collected, vec![Move::face(Face::R, Turn::Cw), Move::face(Face::U, Turn::Half)]);
    assert_eq!(MoveSeq::new().iter().count(), 0);
}
