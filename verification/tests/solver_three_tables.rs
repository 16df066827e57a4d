use rubiks_trainer::three::state::EdgeState;
use rubiks_trainer::three::tables::{apply_edge_op, MoveTables, PruningTables, UNVISITED};

#[test]
fn apply_edge_op_r_cw_on_solved_flips_four() {
    let t = MoveTables::build();
    let solved = EdgeState::solved();
    let new = apply_edge_op(&solved, &t.edge_ops[6]);
    let flipped: u32 = new.orient.iter().map(|&x| x as u32).sum();
    assert_eq!(flipped, 4, "R-cw should flip 4 R-face edges; got orient={:?}", new.orient);
}

#[test]
fn apply_edge_op_f_cw_on_solved_flips_two() {
    let t = MoveTables::build();
    let solved = EdgeState::solved();
    let new = apply_edge_op(&solved, &t.edge_ops[12]);
    let flipped: u32 = new.orient.iter().map(|&x| x as u32).sum();
    assert_eq!(flipped, 2, "F-cw should flip 2 UD-layer F-face edges; got orient={:?}", new.orient);
}

#[test]
fn pruning_p1_co_udslice_goal_is_zero() {
    let t = MoveTables::build();
    let p = PruningTables::build(&t);
    assert_eq!(p.p1_co_udslice_at(0, p.udslice_goal), 0);
}

#[test]
fn pruning_p2_cp_uperm_goal_is_zero() {
    let t = MoveTables::build();
    let p = PruningTables::build(&t);
    assert_eq!(p.p2_cp_uperm_at(0, 0), 0);
}

#[test]
fn pruning_p1_co_udslice_full_coverage() {
    let t = MoveTables::build();
    let p = PruningTables::build(&t);
    let max = p.p1_co_udslice.iter().filter(|&&d| d != UNVISITED).max().unwrap();
    assert!(*max <= 12, "Phase 1 (co, udslice) max distance > 12: {}", max);
}

#[test]
fn pruning_table_admissible_tables_full() {
    let t = MoveTables::build();
    let p = PruningTables::build(&t);
    let p1_co_visited = p.p1_co_udslice.iter().filter(|&&d| d != UNVISITED).count();
    let p2_cp_visited = p.p2_cp_uperm.iter().filter(|&&d| d != UNVISITED).count();
    let p2_ep_visited = p.p2_ep_uperm.iter().filter(|&&d| d != UNVISITED).count();
    assert_eq!(p1_co_visited, p.p1_co_udslice.len(), "p1_co_udslice incomplete");
    assert_eq!(p2_cp_visited, p.p2_cp_uperm.len(), "p2_cp_uperm incomplete");
    assert_eq!(p2_ep_visited, p.p2_ep_uperm.len(), "p2_ep_uperm incomplete");
}
