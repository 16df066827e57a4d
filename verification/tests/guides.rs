use rubiks_trainer::cube::Cube;
use rubiks_trainer::facelets::{Color, Facelets};
use rubiks_trainer::guides::algs::{starter_algs, AlgEntry, AlgFamily};
use rubiks_trainer::guides::goals::{F2LSlot, GoalPredicate};
use rubiks_trainer::moves::{Face, MoveSeq};

fn cube_after(moves: &str) -> Cube {
    let mut cube = Cube::solved(3).unwrap();
    cube.apply_seq(&MoveSeq::parse(moves, 3).unwrap()).unwrap();
    cube
}

fn first_two_layers_intact(entry: &AlgEntry) {
    let mut cube = Cube::solved(3).unwrap();
    cube.apply_seq(&entry.parse()).unwrap();
    let f = Facelets::from_cube(&cube);
    for (side, expected) in [(Face::F, Color::F), (Face::R, Color::R), (Face::B, Color::B), (Face::L, Color::L)] {
        for row in 1..3u8 {
            for col in 0..3u8 {
                assert_eq!(f.get(side, row, col), expected, "{}: side {side:?} row {row} col {col} disturbed", entry.id);
            }
        }
    }
    for row in 0..3u8 {
        for col in 0..3u8 {
            assert_eq!(f.get(Face::D, row, col), Color::D, "{}: D face disturbed at ({row},{col})", entry.id);
        }
    }
}

#[test]
fn every_alg_round_trips_with_its_inverse() {
    for entry in starter_algs() {
        let alg = entry.parse();
        let inv = alg.inverse();
        let mut cube = Cube::solved(3).unwrap();
        cube.apply_seq(&alg).unwrap_or_else(|e| panic!("{}: alg apply failed: {e:?}", entry.id));
        cube.apply_seq(&inv).unwrap_or_else(|e| panic!("{}: inverse apply failed: {e:?}", entry.id));
        assert!(cube.is_solved(), "{}: alg + inverse did not return to solved", entry.id);
    }
}

#[test]
fn starter_library_includes_each_family() {
    let mut saw_oll = false;
    let mut saw_pll = false;
    let mut saw_f2l = false;
    let mut saw_beginner = false;
    for e in starter_algs() {
        match e.family {
            AlgFamily::Oll => saw_oll = true,
            AlgFamily::Pll => saw_pll = true,
            AlgFamily::F2l => saw_f2l = true,
            AlgFamily::Beginner => saw_beginner = true,
        }
    }
    assert!(saw_oll && saw_pll && saw_f2l && saw_beginner);
}

#[test]
fn oll_algorithms_preserve_first_two_layers() {
    for entry in starter_algs().iter().filter(|e| e.family == AlgFamily::Oll) {
        first_two_layers_intact(entry);
    }
}

#[test]
fn pll_algorithms_preserve_first_two_layers() {
    for entry in starter_algs().iter().filter(|e| e.family == AlgFamily::Pll) {
        first_two_layers_intact(entry);
    }
}

#[test]
fn starter_library_has_thirty_seven_entries() {
    let algs = starter_algs();
    assert_eq!(algs.len(), 37);
    assert_eq!(algs[0].id, "oll-27-sune");
    assert_eq!(algs[0].parse().len(), 7);
}

#[test]
fn solved_predicate_matches_solved_cube() {
    let cube = Cube::solved(3).unwrap();
    assert!(GoalPredicate::Solved.evaluate(&cube));
    assert!(!GoalPredicate::Solved.evaluate(&cube_after("R")));
}

#[test]
fn oll_solved_when_top_uniform() {
    let cube = Cube::solved(3).unwrap();
    assert!(GoalPredicate::OllSolved.evaluate(&cube));
    assert!(!GoalPredicate::OllSolved.evaluate(&cube_after("R")));
    assert!(GoalPredicate::OllSolved.evaluate(&cube_after("U")));
    assert!(GoalPredicate::OllSolved.evaluate(&cube_after("U2")));
}

#[test]
fn white_cross_solved_after_setup() {
    let cube = Cube::solved(3).unwrap();
    assert!(GoalPredicate::WhiteCrossSolved.evaluate(&cube));
    assert!(!GoalPredicate::WhiteCrossSolved.evaluate(&cube_after("F")));
}

#[test]
fn white_face_solved_requires_first_layer() {
    let cube = Cube::solved(3).unwrap();
    assert!(GoalPredicate::WhiteFaceSolved.evaluate(&cube));
    assert!(!GoalPredicate::WhiteFaceSolved.evaluate(&cube_after("R")));
}

#[test]
fn f2l_fr_solved_for_solved_cube() {
    let cube = Cube::solved(3).unwrap();
    for slot in [F2LSlot::Fr, F2LSlot::Fl, F2LSlot::Br, F2LSlot::Bl] {
        assert!(GoalPredicate::F2LPairSolved { slot }.evaluate(&cube));
    }
}

#[test]
fn yellow_cross_oriented_on_solved_cube() {
    let cube = Cube::solved(3).unwrap();
    assert!(GoalPredicate::YellowCrossOriented.evaluate(&cube));
}

#[test]
fn custom_goals_are_false_and_small_cubes_have_no_cross() {
    let cube = Cube::solved(3).unwrap();
    assert!(!GoalPredicate::Custom("anything".to_string()).evaluate(&cube));
    let two = Cube::solved(2).unwrap();
    assert!(!GoalPredicate::WhiteCrossSolved.evaluate(&two));
    assert!(GoalPredicate::OllSolved.evaluate(&two));
}

#[test]
fn f2l_slot_broken_by_its_own_face_turn() {
    assert!(!GoalPredicate::F2LPairSolved { slot: F2LSlot::Fr }.evaluate(&cube_after("R")));
    assert!(GoalPredicate::F2LPairSolved { slot: F2LSlot::Bl }.evaluate(&cube_after("R")));
}
