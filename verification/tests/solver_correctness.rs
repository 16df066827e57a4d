use rand::seq::IndexedRandom;
use rand::Rng;
use rand::SeedableRng;
use rand_chacha::ChaCha8Rng;
use rubiks_trainer::cube::Cube;
use rubiks_trainer::facelets::Facelets;
use rubiks_trainer::moves::{Face, Move, MoveSeq, Turn};
use rubiks_trainer::scramble::random_move_scramble;
use rubiks_trainer::three::solver::Solver3x3;
use rubiks_trainer::two::Solver2x2;

const ALL_FACES: [Face; 6] = [Face::U, Face::D, Face::L, Face::R, Face::F, Face::B];

#[test]
fn every_single_move_scramble_solves_visually() {
    let solver = Solver3x3::new();
    for face in ALL_FACES {
        for turn in [Turn::Cw, Turn::Half, Turn::Ccw] {
            let scramble = MoveSeq::from_vec(vec![Move::face(face, turn)]);
            let mut cube = Cube::solved(3).unwrap();
            cube.apply_seq(&scramble).unwrap();
            let solution = solver.solve(&cube).unwrap_or_else(|e| {
                panic!("scramble {} → {e:?}", scramble.to_notation());
            });
            cube.apply_seq(&solution).unwrap();
            let f = Facelets::from_cube(&cube);
            assert_eq!(
                f,
                Facelets::solved(3),
                "scramble {} → solution {} did not visually solve",
                scramble.to_notation(),
                solution.to_notation()
            );
        }
    }
}

#[test]
fn random_multi_move_scrambles_solve() {
    let solver = Solver3x3::new();
    let mut rng = ChaCha8Rng::seed_from_u64(0x515f3);
    for trial in 0..30 {
        let scramble = random_move_scramble(3, 12, &mut rng);
        let mut cube = Cube::solved(3).unwrap();
        cube.apply_seq(&scramble).unwrap();
        let solution = solver.solve(&cube).unwrap_or_else(|e| {
            panic!("trial {trial} scramble {} → {e:?}", scramble.to_notation());
        });
        cube.apply_seq(&solution).unwrap();
        let f = Facelets::from_cube(&cube);
        assert_eq!(
            f,
            Facelets::solved(3),
            "trial {trial} scramble {} → solution {} did not visually solve",
            scramble.to_notation(),
            solution.to_notation()
        );
    }
}

/// Scrambles over R, U and F only, which keep the DBL corner at home.
fn ruf_scramble<R: Rng + ?Sized>(rng: &mut R, length: usize) -> MoveSeq {
    let faces = [Face::R, Face::U, Face::F];
    let turns = [Turn::Cw, Turn::Half, Turn::Ccw];
    let mut moves: Vec<Move> = Vec::with_capacity(length);
    while moves.len() < length {
        let mut candidates: Vec<Face> = faces.to_vec();
        if let Some(prev) = moves.last() {
            candidates.retain(|f| *f != prev.face);
        }
        let face = *candidates.choose(rng).unwrap();
        let turn = *turns.choose(rng).unwrap();
        moves.push(Move::face(face, turn));
    }
    MoveSeq::from_vec(moves)
}

#[test]
fn one_thousand_scrambles_all_solve() {
    let solver = Solver2x2::new();
    let mut rng = ChaCha8Rng::seed_from_u64(0x00C0_FFEE_0202_0202);
    for i in 0..1000 {
        let scramble = ruf_scramble(&mut rng, 14);
        let mut cube = Cube::solved(2).unwrap();
        cube.apply_seq(&scramble).unwrap();
        let solution = solver.solve(&cube).expect("must solve");
        assert!(solution.len() <= 11, "iter {i}: solution exceeds god's number ({})", solution.len());
        cube.apply_seq(&solution).unwrap();
        assert!(
            cube.is_solved(),
            "iter {i}: scramble {} → {} did not solve",
            scramble.to_notation(),
            solution.to_notation()
        );
    }
}
