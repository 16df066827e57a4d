use rubiks_trainer::moves::{Face, Move, MoveSeq, Turn};
use rubiks_trainer::render::{CubeState, MoveOrigin, NextCommitOrigin, PendingMoves};
use rubiks_trainer::trainer::clock::format_ms;
use rubiks_trainer::trainer::drill::{starter_oll_cases, weights_fit, PerCaseStats};
use rubiks_trainer::trainer::session::{complete_solve, redo_move, turn_for_modifiers, undo_move};
use rubiks_trainer::trainer::stats::{SessionStats, SolveFlag};
use rubiks_trainer::trainer::timer::{TimerPhase, TimerState};

#[test]
fn modifiers_pick_the_turn() {
    assert_eq!(turn_for_modifiers(false, false), Turn::Cw);
    assert_eq!(turn_for_modifiers(true, false), Turn::Ccw);
    assert_eq!(turn_for_modifiers(true, true), Turn::Half);
    assert_eq!(turn_for_modifiers(false, true), Turn::Half);
}

#[test]
fn undo_then_redo_moves_between_stacks() {
    let mut state = CubeState::solved(3);
    let mut pending = PendingMoves::new();
    let mut origin = NextCommitOrigin(MoveOrigin::User);
    let r = Move::face(Face::R, Turn::Cw);
    state.history.push(r);
    assert!(undo_move(&mut state, &mut pending, &mut origin, false));
    assert!(state.history.is_empty());
    assert_eq!(state.redo_stack, vec![r]);
    assert_eq!(pending.0, vec![Move::face(Face::R, Turn::Ccw)]);
    assert_eq!(origin.0, MoveOrigin::Undo);
    // A queued move blocks redo.
    assert!(!redo_move(&mut state, &mut pending, &mut origin, false));
    pending.clear();
    assert!(!redo_move(&mut state, &mut pending, &mut origin, true));
    assert!(redo_move(&mut state, &mut pending, &mut origin, false));
    assert_eq!(state.history, vec![r]);
    assert!(state.redo_stack.is_empty());
    assert_eq!(pending.0, vec![r]);
    assert_eq!(origin.0, MoveOrigin::Redo);
}

#[test]
fn undo_with_empty_history_does_nothing() {
    let mut state = CubeState::solved(2);
    let mut pending = PendingMoves::new();
    let mut origin = NextCommitOrigin(MoveOrigin::User);
    assert!(!undo_move(&mut state, &mut pending, &mut origin, false));
    assert!(pending.is_empty());
    assert_eq!(origin.0, MoveOrigin::User);
}

#[test]
fn completed_solve_is_recorded_once() {
    let mut timer = TimerState::default();
    let mut stats = SessionStats::default();
    let mut per_case = PerCaseStats::new();
    let cases = starter_oll_cases();
    let mut current = Some(cases[0].clone());
    // Not solving yet: nothing happens.
    assert_eq!(complete_solve(&mut timer, &mut stats, &mut per_case, &mut current, true, false), None);
    let scramble = MoveSeq::from_vec(vec![Move::face(Face::U, Turn::Half)]);
    timer.begin_inspection(scramble.clone());
    timer.begin_solving();
    timer.tick(12_345_678_901);
    // Still animating, or not solved: the solve goes on.
    assert_eq!(complete_solve(&mut timer, &mut stats, &mut per_case, &mut current, true, true), None);
    assert_eq!(complete_solve(&mut timer, &mut stats, &mut per_case, &mut current, false, false), None);
    assert_eq!(complete_solve(&mut timer, &mut stats, &mut per_case, &mut current, true, false), Some(12_345));
    assert_eq!(timer.phase, TimerPhase::Finished);
    assert_eq!(stats.count(), 1);
    assert_eq!(stats.solves[0].time_ms, 12_345);
    assert_eq!(stats.solves[0].flag, SolveFlag::NoPenalty);
    assert_eq!(stats.solves[0].scramble, scramble);
    assert!(stats.solves[0].solution.is_empty());
    assert_eq!(per_case.count(&cases[0].id), 1);
    assert_eq!(per_case.average(&cases[0].id), Some(12_345));
    assert!(current.is_none());
    // Finished: a second detection records nothing.
    assert_eq!(complete_solve(&mut timer, &mut stats, &mut per_case, &mut current, true, false), None);
    assert_eq!(stats.count(), 1);
}

#[test]
fn clock_text_below_and_above_a_minute() {
    assert_eq!(format_ms(0), "0.000");
    assert_eq!(format_ms(9_005), "9.005");
    assert_eq!(format_ms(59_999), "59.999");
    assert_eq!(format_ms(60_000), "1:00.000");
    assert_eq!(format_ms(83_456), "1:23.456");
    assert_eq!(format_ms(u32::MAX), "71582:47.295");
}

#[test]
fn weights_fit_until_averages_grow_huge() {
    let cases = starter_oll_cases();
    let mut s = PerCaseStats::new();
    assert!(weights_fit(&cases, &s));
    for c in &cases {
        s.record(&c.id, 10_000);
    }
    assert!(weights_fit(&cases, &s));
    s.record(&cases[0].id, u32::MAX);
    s.record(&cases[0].id, u32::MAX);
    s.record(&cases[1].id, u32::MAX);
    s.record(&cases[1].id, u32::MAX);
    s.record(&cases[1].id, u32::MAX);
    s.record(&cases[1].id, u32::MAX);
    assert!(!weights_fit(&cases, &s));
}
