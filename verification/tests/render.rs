use rubiks_trainer::cube::Cube;
use rubiks_trainer::moves::{Face, Move, Turn};
use rubiks_trainer::render::{
    commit_move, expected_cubie_count, CubeState, MoveOrigin, NextCommitOrigin, PendingMoves, MAX_HISTORY,
};

fn drain(state: &mut CubeState, pending: &mut PendingMoves, origin: &mut NextCommitOrigin) {
    while let Some(m) = pending.pop_front() {
        commit_move(state, origin, m);
    }
}

#[test]
fn user_moves_are_recorded_to_history_in_commit_order() {
    let mut state = CubeState::solved(3);
    let mut pending = PendingMoves::new();
    let mut origin = NextCommitOrigin(MoveOrigin::User);
    state.redo_stack.push(Move::face(Face::F, Turn::Half));
    let moves = [Move::face(Face::R, Turn::Cw), Move::face(Face::U, Turn::Ccw), Move::face(Face::L, Turn::Half)];
    for m in moves.iter().copied() {
        pending.enqueue(m);
    }
    drain(&mut state, &mut pending, &mut origin);
    assert_eq!(state.history.len(), 3);
    assert_eq!(state.history[0], moves[0]);
    assert_eq!(state.history[2], moves[2]);
    assert!(state.redo_stack.is_empty());
}

#[test]
fn undo_origin_commit_skips_history_bookkeeping_and_resets_origin() {
    let mut state = CubeState::solved(3);
    let mut pending = PendingMoves::new();
    let mut origin = NextCommitOrigin(MoveOrigin::Undo);
    let r = Move::face(Face::R, Turn::Cw);
    state.redo_stack.push(r);
    pending.enqueue(r.inverse());
    drain(&mut state, &mut pending, &mut origin);
    assert!(state.history.is_empty(), "history was modified by Undo commit");
    assert_eq!(state.redo_stack.len(), 1, "redo was cleared by Undo commit");
    assert_eq!(origin.0, MoveOrigin::User);
}

#[test]
fn animation_completes_and_logical_state_matches_cube_core() {
    let mut state = CubeState::solved(3);
    let mut origin = NextCommitOrigin(MoveOrigin::User);
    let r = Move::face(Face::R, Turn::Cw);
    commit_move(&mut state, &mut origin, r);
    let mut reference = Cube::solved(3).unwrap();
    reference.apply(r).unwrap();
    assert_eq!(state.cube, reference);
}

#[test]
fn cubie_count_matches_known_sizes() {
    assert_eq!(expected_cubie_count(2), 8);
    assert_eq!(expected_cubie_count(3), 26);
    assert_eq!(expected_cubie_count(4), 56);
    assert_eq!(expected_cubie_count(5), 98);
    assert_eq!(expected_cubie_count(1), 1);
    assert_eq!(expected_cubie_count(0), 0);
}

#[test]
fn history_is_capped_at_its_maximum() {
    let mut state = CubeState::solved(2);
    let mut origin = NextCommitOrigin(MoveOrigin::User);
    let first = Move::face(Face::U, Turn::Cw);
    commit_move(&mut state, &mut origin, first);
    for _ in 0..MAX_HISTORY {
        commit_move(&mut state, &mut origin, Move::face(Face::R, Turn::Cw));
    }
    assert_eq!(state.history.len(), MAX_HISTORY);
    assert!(state.history.iter().all(|m| *m == Move::face(Face::R, Turn::Cw)));
}

#[test]
fn invalid_depth_commit_leaves_cube_but_records_move() {
    let mut state = CubeState::solved(3);
    let mut origin = NextCommitOrigin(MoveOrigin::User);
    let deep = Move { face: Face::R, turn: Turn::Cw, depth: 7, wide: false };
    commit_move(&mut state, &mut origin, deep);
    assert!(state.cube.is_strictly_solved());
    assert_eq!(state.history, vec![deep]);
}

#[test]
fn reset_history_keeps_cube_and_pending_queue_order() {
    let mut state = CubeState::solved(3);
    state.history.push(Move::face(Face::R, Turn::Cw));
    state.redo_stack.push(Move::face(Face::U, Turn::Cw));
    state.reset_history();
    assert!(state.history.is_empty() && state.redo_stack.is_empty());
    let mut p = PendingMoves::new();
    assert!(p.is_empty());
    p.enqueue_all(&[Move::face(Face::R, Turn::Cw), Move::face(Face::U, Turn::Cw)]);
    assert_eq!(p.pop_front(), Some(Move::face(Face::R, Turn::Cw)));
    assert_eq!(p.pop_front(), Some(Move::face(Face::U, Turn::Cw)));
    assert_eq!(p.pop_front(), None);
}
