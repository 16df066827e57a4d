use rand::SeedableRng;
use rand_chacha::ChaCha8Rng;
use rubiks_trainer::render::{CubeState, PendingMoves};
use rubiks_trainer::trainer::drill::{
    next_drill_mode, pick_drill_case, start_drill, starter_oll_cases, DrillMode, PerCaseStats,
};
use rubiks_trainer::trainer::timer::{TimerPhase, TimerState};

#[test]
fn per_case_stats_record_and_query() {
    let mut s = PerCaseStats::new();
    s.record("oll-27-sune", 4_000);
    s.record("oll-27-sune", 3_500);
    s.record("oll-27-sune", 4_500);
    s.record("oll-21-h", 6_000);
    assert_eq!(s.count("oll-27-sune"), 3);
    assert_eq!(s.average("oll-27-sune"), Some(4_000));
    assert_eq!(s.best("oll-27-sune"), Some(3_500));
    assert_eq!(s.worst("oll-27-sune"), Some(4_500));
    assert_eq!(s.average("oll-21-h"), Some(6_000));
    assert_eq!(s.average("oll-22-pi"), None);
}

#[test]
fn weakness_ranking_puts_untried_first_then_slowest() {
    let cases = starter_oll_cases();
    let mut s = PerCaseStats::new();
    s.record("oll-27-sune", 2_000);
    s.record("oll-21-h", 8_000);
    let ranked = s.weakness_ranking(&cases);
    let ranked_ids: Vec<&str> = ranked.iter().map(|c| c.id.as_str()).collect();
    assert!(
        ranked_ids[0..3].iter().all(|id| !["oll-27-sune", "oll-21-h"].contains(id)),
        "untried not first: {ranked_ids:?}",
    );
    let h_pos = ranked_ids.iter().position(|s| *s == "oll-21-h").unwrap();
    let sune_pos = ranked_ids.iter().position(|s| *s == "oll-27-sune").unwrap();
    assert!(h_pos < sune_pos);
}

#[test]
fn pick_drill_case_returns_untried_when_available() {
    let cases = starter_oll_cases();
    let stats = PerCaseStats::new();
    let mut rng = ChaCha8Rng::seed_from_u64(0xC0FFEE);
    let pick = pick_drill_case(&cases, &stats, &mut rng).expect("non-empty");
    assert!(cases.iter().any(|c| c.id == pick.id));
}

#[test]
fn pick_drill_case_biases_toward_slow_cases_once_all_tried() {
    let cases = starter_oll_cases();
    let mut stats = PerCaseStats::new();
    for c in &cases {
        stats.record(&c.id, 1_000);
    }
    stats.record(&cases[0].id, 50_000);
    let mut rng = ChaCha8Rng::seed_from_u64(0xDEADBEEF);
    let mut hits = 0;
    let trials = 1000;
    for _ in 0..trials {
        let p = pick_drill_case(&cases, &stats, &mut rng).unwrap();
        if p.id == cases[0].id {
            hits += 1;
        }
    }
    assert!(hits > trials * 4 / 10, "weighting too weak: {hits}/{trials}");
}

#[test]
fn starter_oll_setups_all_parse() {
    let cases = starter_oll_cases();
    assert!(!cases.is_empty());
    for c in &cases {
        assert!(!c.setup.is_empty(), "{} has empty setup", c.id);
    }
}

#[test]
fn pick_from_nothing_is_none_and_untried_always_wins() {
    let cases = starter_oll_cases();
    let stats = PerCaseStats::new();
    let mut rng = ChaCha8Rng::seed_from_u64(7);
    assert!(pick_drill_case(&[], &stats, &mut rng).is_none());
    let mut tried = PerCaseStats::new();
    for c in cases.iter().skip(1) {
        tried.record(&c.id, 1_000);
    }
    for _ in 0..20 {
        assert_eq!(pick_drill_case(&cases, &tried, &mut rng).unwrap().id, cases[0].id);
    }
}

#[test]
fn drill_mode_labels_and_cycle() {
    assert_eq!(DrillMode::SpeedSolve.label(), "speed-solve");
    assert_eq!(DrillMode::LastLayer.label(), "last-layer");
    assert_eq!(next_drill_mode(DrillMode::SpeedSolve), DrillMode::Oll);
    assert_eq!(next_drill_mode(DrillMode::Oll), DrillMode::Pll);
    assert_eq!(next_drill_mode(DrillMode::Pll), DrillMode::SpeedSolve);
    assert_eq!(next_drill_mode(DrillMode::Cross), DrillMode::SpeedSolve);
}

#[test]
fn start_drill_resets_and_queues_the_setup() {
    let cases = starter_oll_cases();
    let mut cube_state = CubeState::solved(3);
    cube_state.history.push(rubiks_trainer::moves::Move::face(
        rubiks_trainer::moves::Face::R,
        rubiks_trainer::moves::Turn::Cw,
    ));
    let mut pending = PendingMoves::new();
    let mut timer = TimerState::default();
    let setup = start_drill(&cases[2], &mut cube_state, &mut pending, &mut timer);
    assert_eq!(setup, cases[2].setup);
    assert!(cube_state.history.is_empty());
    assert_eq!(pending.0, cases[2].setup.0);
    assert_eq!(timer.phase, TimerPhase::Inspecting);
    assert_eq!(timer.active_scramble, cases[2].setup);
}

#[test]
fn starter_oll_setups_are_inverse_algorithms() {
    for c in starter_oll_cases() {
        let alg = rubiks_trainer::moves::MoveSeq::parse(c.canonical_algorithm.as_ref().unwrap(), 3).unwrap();
        assert_eq!(c.setup, alg.inverse(), "{}", c.id);
    }
    let cases = starter_oll_cases();
    assert_eq!(cases[3].setup.to_notation(), "R U R' U R U2 R'");
}
