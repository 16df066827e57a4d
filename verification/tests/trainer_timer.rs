use rand::SeedableRng;
use rand_chacha::ChaCha8Rng;
use rubiks_trainer::moves::MoveSeq;
use rubiks_trainer::render::{CubeState, PendingMoves};
use rubiks_trainer::scramble::default_length;
use rubiks_trainer::trainer::timer::{start_solve, TimerPhase, TimerState, WCA_INSPECTION_NS};

const SEC: u64 = 1_000_000_000;
const MS: u64 = 1_000_000;

#[test]
fn timer_state_machine_transitions() {
    let mut t = TimerState::default();
    assert_eq!(t.phase, TimerPhase::Idle);
    t.begin_inspection(MoveSeq::new());
    assert_eq!(t.phase, TimerPhase::Inspecting);
    t.tick(5 * SEC);
    assert_eq!(t.inspection_remaining_ns, 10 * SEC);
    t.begin_solving();
    assert_eq!(t.phase, TimerPhase::Solving);
    t.tick(7_500 * MS);
    assert_eq!(t.elapsed_ns, 7_500 * MS);
    t.finish();
    assert_eq!(t.phase, TimerPhase::Finished);
    t.reset();
    assert_eq!(t.phase, TimerPhase::Idle);
    assert_eq!(t.elapsed_ns, 0);
}

#[test]
fn timer_phases_idle_and_finished_dont_accumulate_elapsed() {
    let mut t = TimerState::default();
    t.tick(10 * SEC);
    assert_eq!(t.elapsed_ns, 0);
    t.finish();
    let before = t.elapsed_ns;
    t.tick(10 * SEC);
    assert_eq!(t.elapsed_ns, before);
}

#[test]
fn inspection_countdown_stops_at_zero() {
    let mut t = TimerState::default();
    t.begin_inspection(MoveSeq::new());
    t.tick(20 * SEC);
    assert_eq!(t.inspection_remaining_ns, 0);
    assert_eq!(t.elapsed_ns, 20 * SEC);
    assert_eq!(WCA_INSPECTION_NS, 15 * SEC);
}

#[test]
fn start_solve_queues_a_scramble_and_inspects() {
    let mut cube_state = CubeState::solved(3);
    let mut pending = PendingMoves::new();
    let mut timer = TimerState::default();
    let mut rng = ChaCha8Rng::seed_from_u64(0xC0FFEE_CAFE_BABE);
    let scramble = start_solve(&mut cube_state, &mut pending, &mut timer, &mut rng);
    assert_eq!(scramble.len(), default_length(3));
    assert_eq!(pending.0, scramble.0);
    assert_eq!(timer.phase, TimerPhase::Inspecting);
    assert_eq!(timer.active_scramble, scramble);
    assert!(cube_state.cube.is_solved());
}
