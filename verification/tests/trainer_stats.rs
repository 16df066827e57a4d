use rubiks_trainer::moves::MoveSeq;
use rubiks_trainer::trainer::stats::{average_of_n, SessionStats, SolveFlag, TimedSolve};

fn solve_ms(time_ms: u32) -> TimedSolve {
    TimedSolve { scramble: MoveSeq::new(), solution: MoveSeq::new(), time_ms, flag: SolveFlag::NoPenalty }
}

fn solve_flag(time_ms: u32, flag: SolveFlag) -> TimedSolve {
    TimedSolve { scramble: MoveSeq::new(), solution: MoveSeq::new(), time_ms, flag }
}

#[test]
fn ao5_drops_extremes_and_averages_middle_three() {
    let s = vec![solve_ms(10_000), solve_ms(12_000), solve_ms(14_000), solve_ms(11_000), solve_ms(13_000)];
    assert_eq!(average_of_n(&s, 5), Some(12_000));
}

#[test]
fn ao5_treats_plus2_as_added_2000ms() {
    let s = vec![
        solve_ms(10_000),
        solve_flag(11_000, SolveFlag::Plus2),
        solve_ms(12_000),
        solve_ms(14_000),
        solve_ms(13_000),
    ];
    assert_eq!(average_of_n(&s, 5), Some(12_666));
}

#[test]
fn ao5_one_dnf_is_dropped_as_slowest() {
    let s = vec![solve_ms(10_000), solve_ms(12_000), solve_flag(0, SolveFlag::Dnf), solve_ms(11_000), solve_ms(13_000)];
    assert_eq!(average_of_n(&s, 5), Some(12_000));
}

#[test]
fn ao5_two_dnfs_returns_none() {
    let s = vec![
        solve_flag(0, SolveFlag::Dnf),
        solve_ms(11_000),
        solve_flag(0, SolveFlag::Dnf),
        solve_ms(12_000),
        solve_ms(13_000),
    ];
    assert_eq!(average_of_n(&s, 5), None);
}

#[test]
fn ao5_returns_none_with_fewer_than_five_solves() {
    let s = vec![solve_ms(10_000), solve_ms(11_000)];
    assert_eq!(average_of_n(&s, 5), None);
}

#[test]
fn session_stats_track_best_and_ao5() {
    let mut stats = SessionStats::default();
    for t in [10_000, 12_000, 14_000, 11_000, 13_000, 9_000] {
        stats.record(solve_ms(t));
    }
    assert_eq!(stats.best(), Some(9_000));
    assert_eq!(stats.count(), 6);
    assert_eq!(stats.ao5(), Some(12_000));
    assert_eq!(stats.best_ao5(), Some(12_000));
}

#[test]
fn effective_times_per_flag() {
    assert_eq!(solve_ms(1234).effective_time_ms(), 1234);
    assert_eq!(solve_flag(1234, SolveFlag::Plus2).effective_time_ms(), 3234);
    assert_eq!(solve_flag(u32::MAX - 5, SolveFlag::Plus2).effective_time_ms(), u32::MAX);
    assert_eq!(solve_flag(1234, SolveFlag::Dnf).effective_time_ms(), u32::MAX);
}

#[test]
fn worst_counts_dnf_and_best_ignores_it() {
    let mut stats = SessionStats::default();
    assert_eq!(stats.best(), None);
    assert_eq!(stats.worst(), None);
    stats.record(solve_flag(5_000, SolveFlag::Dnf));
    assert_eq!(stats.best(), None);
    assert_eq!(stats.worst(), Some(u32::MAX));
    stats.record(solve_ms(8_000));
    assert_eq!(stats.best(), Some(8_000));
}

#[test]
fn ao12_and_best_ao12_over_rolling_windows() {
    let mut stats = SessionStats::default();
    for t in 1..=13u32 {
        stats.record(solve_ms(t * 1_000));
    }
    assert_eq!(stats.ao12(), Some(7_500));
    assert_eq!(stats.best_ao12(), Some(6_500));
    assert_eq!(stats.best_ao5(), Some(3_000));
}
