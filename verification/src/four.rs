//! 4×4 reduction. A 4×4 is reduced when every face's four center
//! stickers show that face's solved color and every edge's two wing
//! stickers agree; a reduced 4×4 reads as a 3×3. The solver takes an
//! already-reduced cube, applies a parity fix where the 3×3 view is not
//! a reachable 3×3 state, and hands the rest to the 3×3 solver. Outer
//! layer 3×3 moves carry over unchanged to the 4×4.

use vstd::prelude::*;
use vstd::string::StringSliceAdditionalSpecFns;
use crate::assembly::assembled;
use crate::cube::{Cube, Cubie, run_moves, step_all, cubies_wf, pieces_ok};
use crate::facelets::{Color, Facelets, cell, face_at, face_at_index, face_color, solved_color, sticker_index, sticker_view};
use crate::moves::{Move, MoveSeq, cancel_spec};
use crate::parser::parse_spec;
use crate::three::solver::{Solve3x3Error, Solver3x3, cube_view, is_solution};
use crate::three::tables::solved_view;

verus! {

/// 4×4 OLL parity (single flipped edge) fix.
pub const OLL_PARITY_ALG: &'static str = "Rw U2 Rw U2 Rw U2 Rw U2 Rw U2";

/// 4×4 PLL parity (two edges swapped) fix.
pub const PLL_PARITY_ALG: &'static str = "Rw2 U2 Rw2 Uw2 Rw2 Uw2";

#[derive(Debug, Clone, PartialEq, Eq)]
pub enum Solve4x4Error {
    /// The cube is not a 4×4.
    WrongSize(u8),
    /// Centers are not solved or edges are not paired.
    NotReducedYet,
    /// The 3×3 phase failed.
    ThreeByThree(Solve3x3Error),
    /// The 3×3 view stayed unreachable after the parity fixes.
    UnresolvedParity,
}

/// Every face's four center stickers show the face's solved color.
pub open spec fn centers_solved_spec(st: Seq<Color>) -> bool {
    forall|f: int, row: int, col: int|
        0 <= f < 6 && 1 <= row <= 2 && 1 <= col <= 2 ==> #[trigger] cell(st, 4, f, row, col) == face_color(
            face_at(f),
        )
}

/// On face `f`, the two wing stickers of each of the four edges agree.
pub open spec fn wings_paired_on(st: Seq<Color>, f: int) -> bool {
    &&& cell(st, 4, f, 0, 1) == cell(st, 4, f, 0, 2)
    &&& cell(st, 4, f, 3, 1) == cell(st, 4, f, 3, 2)
    &&& cell(st, 4, f, 1, 0) == cell(st, 4, f, 2, 0)
    &&& cell(st, 4, f, 1, 3) == cell(st, 4, f, 2, 3)
}

pub open spec fn edges_paired_spec(st: Seq<Color>) -> bool {
    forall|f: int| 0 <= f < 6 ==> #[trigger] wings_paired_on(st, f)
}

/// Sticker `(r, c)` of a 4×4 face is a wing: on the face's border but not
/// a corner.
pub open spec fn is_wing(r: int, c: int) -> bool {
    &&& 0 <= r < 4
    &&& 0 <= c < 4
    &&& (r == 0 || r == 3 || c == 0 || c == 3)
    &&& !((r == 0 || r == 3) && (c == 0 || c == 3))
}

/// Two wings of a 4×4 face belong to one edge: they lie on the same side
/// of the face.
pub open spec fn same_edge(r1: int, c1: int, r2: int, c2: int) -> bool {
    &&& is_wing(r1, c1)
    &&& is_wing(r2, c2)
    &&& ((r1 == r2 && (r1 == 0 || r1 == 3)) || (c1 == c2 && (c1 == 0 || c1 == 3)))
}

/// The edges of a 4×4 sticker array are paired exactly when, on every
/// face, any two wings on the same side of the face show the same color.
pub proof fn lemma_edges_paired_wings(st: Seq<Color>)
    ensures
        edges_paired_spec(st) <==> forall|f: int, r1: int, c1: int, r2: int, c2: int|
            0 <= f < 6 && same_edge(r1, c1, r2, c2) ==> #[trigger] cell(st, 4, f, r1, c1) == #[trigger] cell(
                st,
                4,
                f,
                r2,
                c2,
            ),
{
    if edges_paired_spec(st) {
        assert forall|f: int, r1: int, c1: int, r2: int, c2: int|
            0 <= f < 6 && same_edge(r1, c1, r2, c2) implies #[trigger] cell(st, 4, f, r1, c1) == #[trigger] cell(
            st,
            4,
            f,
            r2,
            c2,
        ) by {
            assert(wings_paired_on(st, f));
        }
    }
    if forall|f: int, r1: int, c1: int, r2: int, c2: int|
        0 <= f < 6 && same_edge(r1, c1, r2, c2) ==> #[trigger] cell(st, 4, f, r1, c1) == #[trigger] cell(
            st,
            4,
            f,
            r2,
            c2,
        ) {
        assert forall|f: int| 0 <= f < 6 implies #[trigger] wings_paired_on(st, f) by {
            assert(same_edge(0, 1, 0, 2));
            assert(same_edge(3, 1, 3, 2));
            assert(same_edge(1, 0, 2, 0));
            assert(same_edge(1, 3, 2, 3));
            assert(cell(st, 4, f, 0, 1) == cell(st, 4, f, 0, 2));
            assert(cell(st, 4, f, 3, 1) == cell(st, 4, f, 3, 2));
            assert(cell(st, 4, f, 1, 0) == cell(st, 4, f, 2, 0));
            assert(cell(st, 4, f, 1, 3) == cell(st, 4, f, 2, 3));
        }
    }
}

#[verifier::opaque]
pub open spec fn reduced_spec(st: Seq<Color>) -> bool {
    centers_solved_spec(st) && edges_paired_spec(st)
}

/// Row or column of the 4×4 sticker sampled for 3×3 row or column `k`.
pub open spec fn sample4(k: int) -> int {
    if k == 0 {
        0
    } else if k == 1 {
        1
    } else {
        3
    }
}

/// The 3×3 sticker view read from a 4×4 (or larger) sticker array: one
/// sticker per 3×3 cell.
#[verifier::opaque]
pub open spec fn projected4(st: Seq<Color>, n: int) -> Seq<Color> {
    Seq::new(54, |i: int| cell(st, n, i / 9, sample4((i / 3) % 3), sample4(i % 3)))
}

/// True iff every face's four center stickers show that face's solved
/// color.
pub fn centers_solved(facelets: &Facelets) -> (r: bool)
    requires
        facelets.size == 4 ==> facelets.stickers@.len() == 96,
    ensures
        r == (facelets.size == 4 && centers_solved_spec(facelets.stickers@)),
{
    if facelets.size != 4 {
        return false;
    }
    let ghost st = facelets.stickers@;
    let mut fi: usize = 0;
    while fi < 6
        invariant
            facelets.size == 4,
            st == facelets.stickers@,
            st.len() == 96,
            fi <= 6,
            forall|f: int, row: int, col: int|
                0 <= f < fi && 1 <= row <= 2 && 1 <= col <= 2 ==> #[trigger] cell(st, 4, f, row, col)
                    == face_color(face_at(f)),
        decreases 6 - fi,
    {
        let face = face_at_index(fi);
        let want = solved_color(face);
        let mut row: u8 = 1;
        while row <= 2
            invariant
                facelets.size == 4,
                st == facelets.stickers@,
                st.len() == 96,
                fi < 6,
                face == face_at(fi as int),
                want == face_color(face),
                1 <= row <= 3,
                forall|f: int, r: int, col: int|
                    0 <= f < fi && 1 <= r <= 2 && 1 <= col <= 2 ==> #[trigger] cell(st, 4, f, r, col)
                        == face_color(face_at(f)),
                forall|r: int, col: int|
                    1 <= r < row && 1 <= col <= 2 ==> #[trigger] cell(st, 4, fi as int, r, col) == want,
            decreases 3 - row,
        {
            let mut col: u8 = 1;
            while col <= 2
                invariant
                    facelets.size == 4,
                    st == facelets.stickers@,
                    st.len() == 96,
                    fi < 6,
                    face == face_at(fi as int),
                    want == face_color(face),
                    1 <= row <= 2,
                    1 <= col <= 3,
                    forall|f: int, r: int, c: int|
                        0 <= f < fi && 1 <= r <= 2 && 1 <= c <= 2 ==> #[trigger] cell(st, 4, f, r, c)
                            == face_color(face_at(f)),
                    forall|r: int, c: int|
                        1 <= r < row && 1 <= c <= 2 ==> #[trigger] cell(st, 4, fi as int, r, c) == want,
                    forall|c: int| 1 <= c < col ==> #[trigger] cell(st, 4, fi as int, row as int, c) == want,
                decreases 3 - col,
            {
                if facelets.get(face, row, col) != want {
                    assert(cell(st, 4, fi as int, row as int, col as int) != face_color(face_at(fi as int)));
                    return false;
                }
                col = col + 1;
            }
            row = row + 1;
        }
        fi = fi + 1;
    }
    true
}

/// True iff every edge's two wing stickers show the same color on both
/// faces it touches.
pub fn edges_paired(facelets: &Facelets) -> (r: bool)
    requires
        facelets.size == 4 ==> facelets.stickers@.len() == 96,
    ensures
        r == (facelets.size == 4 && edges_paired_spec(facelets.stickers@)),
{
    if facelets.size != 4 {
        return false;
    }
    let ghost st = facelets.stickers@;
    let mut fi: usize = 0;
    while fi < 6
        invariant
            facelets.size == 4,
            st == facelets.stickers@,
            st.len() == 96,
            fi <= 6,
            forall|f: int| 0 <= f < fi ==> #[trigger] wings_paired_on(st, f),
        decreases 6 - fi,
    {
        let face = face_at_index(fi);
        if facelets.get(face, 0, 1) != facelets.get(face, 0, 2) || facelets.get(face, 3, 1) != facelets.get(
            face,
            3,
            2,
        ) || facelets.get(face, 1, 0) != facelets.get(face, 2, 0) || facelets.get(face, 1, 3)
            != facelets.get(face, 2, 3) {
            assert(!wings_paired_on(st, fi as int));
            return false;
        }
        fi = fi + 1;
    }
    true
}

/// True iff centers are solved and edges are paired.
pub fn is_reduced(facelets: &Facelets) -> (r: bool)
    requires
        facelets.size == 4 ==> facelets.stickers@.len() == 96,
    ensures
        r == (facelets.size == 4 && reduced_spec(facelets.stickers@)),
{
    proof {
        reveal(reduced_spec);
    }
    centers_solved(facelets) && edges_paired(facelets)
}

/// 4×4 row or column sampled for 3×3 row or column `k`: corners map to
/// the outermost stickers, edges and centers to an inner one.
fn sample_4x4(k: u8) -> (r: u8)
    requires
        k < 3,
    ensures
        r == sample4(k as int),
        r < 4,
{
    if k == 0 {
        0
    } else if k == 1 {
        1
    } else {
        3
    }
}

/// Project a 4×4 sticker view to a 3×3 sticker view by sampling one
/// sticker per 3×3 cell. Meaningful on a reduced 4×4.
pub fn project_to_3x3(facelets: &Facelets) -> (r: Facelets)
    requires
        facelets.size >= 4,
        facelets.stickers@.len() == 6 * facelets.size * facelets.size,
    ensures
        r.size == 3,
        r.stickers@.len() == 54,
        r.stickers@ == projected4(facelets.stickers@, facelets.size as int),
        forall|f: int, row: int, col: int|
            0 <= f < 6 && 0 <= row < 3 && 0 <= col < 3 ==> r.stickers@[sticker_index(face_at(f), 3, row, col)]
                == #[trigger] cell(facelets.stickers@, facelets.size as int, f, sample4(row), sample4(col)),
{
    let ghost st = facelets.stickers@;
    let ghost target = projected4(st, facelets.size as int);
    proof {
        reveal(projected4);
    }
    let mut out: Vec<Color> = Vec::with_capacity(54);
    let mut k: usize = 0;
    while k < 54
        invariant
            facelets.size >= 4,
            st == facelets.stickers@,
            st.len() == 6 * facelets.size * facelets.size,
            target == projected4(st, facelets.size as int),
            k <= 54,
            out@ =~= target.take(k as int),
        decreases 54 - k,
    {
        let face = face_at_index(k / 9);
        let row = sample_4x4(((k / 3) % 3) as u8);
        let col = sample_4x4((k % 3) as u8);
        let c = facelets.get(face, row, col);
        out.push(c);
        proof {
            reveal(projected4);
            assert(target.take(k + 1) =~= target.take(k as int).push(target[k as int]));
        }
        k = k + 1;
    }
    proof {
        reveal(projected4);
        assert(target.take(54) =~= target);
        assert forall|f: int, row: int, col: int| 0 <= f < 6 && 0 <= row < 3 && 0 <= col < 3 implies out@[sticker_index(
            face_at(f),
            3,
            row,
            col,
        )] == #[trigger] cell(st, facelets.size as int, f, sample4(row), sample4(col)) by {
            assert(crate::facelets::face_index(face_at(f)) == f);
            let i = f * 9 + row * 3 + col;
            assert(sticker_index(face_at(f), 3, row, col) == i);
            assert(i / 9 == f);
            assert((i / 3) % 3 == row);
            assert(i % 3 == col);
        }
    }
    Facelets { size: 3, stickers: out }
}

/// Fix candidates in the order they are tried: none, OLL parity, PLL
/// parity.
pub open spec fn candidate(i: int) -> &'static str {
    if i == 0 {
        ""
    } else if i == 1 {
        OLL_PARITY_ALG
    } else {
        PLL_PARITY_ALG
    }
}

fn parity_fix_candidate(i: usize) -> (r: &'static str)
    requires
        i < 3,
    ensures
        r == candidate(i as int),
{
    if i == 0 {
        ""
    } else if i == 1 {
        OLL_PARITY_ALG
    } else {
        PLL_PARITY_ALG
    }
}

/// The moves of fix candidate `i` on a 4×4.
#[verifier::opaque]
pub open spec fn candidate_moves(i: int) -> Seq<Move> {
    match parse_spec(candidate(i).spec_bytes(), 4) {
        Ok(ms) => ms,
        Err(_) => Seq::empty(),
    }
}

/// The moves of the first `i` fix candidates, one after the other.
pub open spec fn fixes_upto(i: int) -> Seq<Move>
    decreases i,
{
    if i <= 0 {
        Seq::empty()
    } else {
        fixes_upto(i - 1) + candidate_moves(i - 1)
    }
}

/// After the fixes `pre`, the cube is reduced, its 3×3 view assembles
/// into a 3×3 cube, and `sol` is a 3×3 solution for that cube.
#[verifier::opaque]
pub open spec fn solves_after(s: &Solver3x3, cs: Seq<Cubie>, pre: Seq<Move>, sol: Seq<Move>) -> bool {
    let st = sticker_view(run_moves(cs, pre, 4), 4);
    &&& reduced_spec(st)
    &&& assembled(projected4(st, 4), 3) is Some
    &&& is_solution(s, cube_view(assembled(projected4(st, 4), 3)->Some_0), sol)
}

/// 4×4 reduction-aware solver; owns a 3×3 solver.
pub struct Solver4x4 {
    pub solver_3x3: Solver3x3,
}

fn apply_prefix(cube: &mut Cube, moves: &[Move]) -> (r: Result<(), Solve4x4Error>)
    requires
        pieces_ok(old(cube).cubies@),
    ensures
        final(cube).size == old(cube).size,
        r is Ok ==> final(cube).cubies@ == run_moves(old(cube).cubies@, moves@, old(cube).size as int),
        r is Err ==> r == Err::<(), Solve4x4Error>(Solve4x4Error::UnresolvedParity),
{
    let ghost start = cube.cubies@;
    let mut i: usize = 0;
    while i < moves.len()
        invariant
            cube.size == old(cube).size,
            start == old(cube).cubies@,
            i <= moves@.len(),
            pieces_ok(cube.cubies@),
            cube.cubies@ == run_moves(start, moves@.take(i as int), cube.size as int),
        decreases moves@.len() - i,
    {
        match cube.apply(moves[i]) {
            Ok(()) => {},
            Err(_) => {
                return Err(Solve4x4Error::UnresolvedParity);
            },
        }
        proof {
            assert(moves@.take(i + 1).drop_last() =~= moves@.take(i as int));
        }
        i = i + 1;
    }
    proof {
        assert(moves@.take(i as int) =~= moves@);
    }
    Ok(())
}

/// The moves of the first `k` fix candidates followed by `sol`.
pub open spec fn fixed_then(k: int, sol: Seq<Move>) -> Seq<Move> {
    fixes_upto(k) + sol
}

impl Solver4x4 {
    pub open spec fn wf(&self) -> bool {
        self.solver_3x3.wf()
    }

    pub fn new() -> (r: Self)
        ensures
            r.wf(),
    {
        Self { solver_3x3: Solver3x3::new() }
    }

    /// Solve an already-reduced 4×4: try the fix candidates in order until
    /// the 3×3 view assembles, solve that view as a 3×3, and return the
    /// fixes followed by the 3×3 solution with adjacent turns merged.
    pub fn solve(&self, cube: &Cube) -> (r: Result<MoveSeq, Solve4x4Error>)
        requires
            self.wf(),
            cube.wf(),
        ensures
            cube.size != 4 ==> r == Err::<MoveSeq, Solve4x4Error>(Solve4x4Error::WrongSize(cube.size)),
            cube.size == 4 ==> (r == Err::<MoveSeq, Solve4x4Error>(Solve4x4Error::NotReducedYet) <==> !reduced_spec(
                sticker_view(cube.cubies@, 4),
            )),
            r matches Ok(ms) ==> exists|k: int, sol: Seq<Move>|
                0 <= k <= 3 && ms.0@ == cancel_spec(#[trigger] fixed_then(k, sol)) && solves_after(
                    &self.solver_3x3,
                    cube.cubies@,
                    fixes_upto(k),
                    sol,
                ),
            cube.size == 4 && reduced_spec(sticker_view(cube.cubies@, 4)) && assembled(
                projected4(sticker_view(cube.cubies@, 4), 4),
                3,
            ) is Some ==> match r {
                Ok(ms) => exists|sol: Seq<Move>|
                    #![trigger cancel_spec(sol)]
                    ms.0@ == cancel_spec(sol) && solves_after(&self.solver_3x3, cube.cubies@, Seq::empty(), sol),
                Err(e) => e is ThreeByThree,
            },
            cube.size == 4 && reduced_spec(sticker_view(cube.cubies@, 4)) && assembled(
                projected4(sticker_view(cube.cubies@, 4), 4),
                3,
            ) is Some && solved_view(cube_view(assembled(projected4(sticker_view(cube.cubies@, 4), 4), 3)->Some_0))
                ==> (r matches Ok(ms) && ms.0@.len() == 0),
    {
        if cube.size != 4 {
            return Err(Solve4x4Error::WrongSize(cube.size));
        }
        let facelets = Facelets::from_cube(cube);
        if !is_reduced(&facelets) {
            return Err(Solve4x4Error::NotReducedYet);
        }
        let ghost cs = cube.cubies@;
        let ghost start_ok = assembled(projected4(sticker_view(cs, 4), 4), 3) is Some;
        proof {
            assert(run_moves(cs, Seq::<Move>::empty(), 4) == cs);
        }
        let mut prefix: Vec<Move> = Vec::new();
        let mut working = facelets;
        let mut i: usize = 0;
        while i < 3
            invariant
                cube.wf(),
                cube.size == 4,
                cs == cube.cubies@,
                i <= 3,
                prefix@ == fixes_upto(i as int),
                working.size == 4,
                working.stickers@ == sticker_view(run_moves(cs, prefix@, 4), 4),
                reduced_spec(working.stickers@),
                i == 0 ==> prefix@.len() == 0,
                i == 0 ==> working.stickers@ == sticker_view(cs, 4),
                reduced_spec(sticker_view(cs, 4)),
                start_ok == (assembled(projected4(sticker_view(cs, 4), 4), 3) is Some),
                start_ok ==> i == 0,
            decreases 3 - i,
        {
            let three_view = project_to_3x3(&working);
            if three_view.try_into_cube().is_ok() {
                break;
            }
            let fixed = match apply_fix(cube, &mut prefix, i) {
                Ok(c) => c,
                Err(e) => {
                    return Err(e);
                },
            };
            working = Facelets::from_cube(&fixed);
            if !is_reduced(&working) {
                return Err(Solve4x4Error::UnresolvedParity);
            }
            i = i + 1;
        }
        let three_view = project_to_3x3(&working);
        let three_cube = match three_view.try_into_cube() {
            Ok(c) => c,
            Err(_) => {
                return Err(Solve4x4Error::UnresolvedParity);
            },
        };
        let ghost st3 = projected4(working.stickers@, 4);
        proof {
            crate::assembly::lemma_assembled_wf(st3, 3);
            crate::three::state::lemma_assembled_kinds(st3);
            reveal(solves_after);
        }
        let three_solution = match self.solver_3x3.solve(&three_cube) {
            Ok(s) => s,
            Err(e) => {
                return Err(Solve4x4Error::ThreeByThree(e));
            },
        };
        let mut all_moves = prefix;
        all_moves.extend_from_slice(three_solution.as_slice());
        proof {
            assert(all_moves@ == fixed_then(i as int, three_solution.0@));
            if i == 0 {
                assert(fixes_upto(0) + three_solution.0@ =~= three_solution.0@);
            }
        }
        Ok(MoveSeq::from_vec(all_moves).cancel())
    }
}

/// A copy of `cube` with the fixes so far and fix candidate `i` applied;
/// `prefix` gains the moves of candidate `i`.
fn apply_fix(cube: &Cube, prefix: &mut Vec<Move>, i: usize) -> (r: Result<Cube, Solve4x4Error>)
    requires
        cube.wf(),
        cube.size == 4,
        i < 3,
        old(prefix)@ == fixes_upto(i as int),
    ensures
        r matches Ok(c) ==> c.size == 4 && c.wf() && final(prefix)@ == fixes_upto(i + 1) && c.cubies@ == run_moves(
            cube.cubies@,
            final(prefix)@,
            4,
        ),
        r is Err ==> r == Err::<Cube, Solve4x4Error>(Solve4x4Error::UnresolvedParity),
{
    let ghost cs = cube.cubies@;
    proof {
        crate::cube::lemma_wf_pieces_ok(cs, 4);
    }
    let mut fixed = cube.duplicate();
    match apply_prefix(&mut fixed, prefix.as_slice()) {
        Ok(()) => {},
        Err(e) => {
            return Err(e);
        },
    }
    let fix_seq = match MoveSeq::parse(parity_fix_candidate(i), 4) {
        Ok(ms) => ms,
        Err(_) => {
            return Err(Solve4x4Error::UnresolvedParity);
        },
    };
    proof {
        crate::cube::lemma_run_keeps_wf(cs, prefix@, 4);
        reveal(candidate_moves);
        assert(fix_seq.0@ == candidate_moves(i as int));
    }
    let ghost before = prefix@;
    let mut j: usize = 0;
    while j < fix_seq.0.len()
        invariant
            fixed.size == 4,
            j <= fix_seq.0@.len(),
            prefix@ == before + fix_seq.0@.take(j as int),
            fixed.cubies@ == run_moves(cs, prefix@, 4),
            cubies_wf(fixed.cubies@, 4),
        decreases fix_seq.0@.len() - j,
    {
        let m = fix_seq.0[j];
        proof {
            crate::cube::lemma_wf_pieces_ok(fixed.cubies@, 4);
        }
        match fixed.apply(m) {
            Ok(()) => {},
            Err(_) => {
                return Err(Solve4x4Error::UnresolvedParity);
            },
        }
        proof {
            crate::cube::lemma_step_keeps_wf(run_moves(cs, prefix@, 4), m, 4);
        }
        prefix.push(m);
        proof {
            assert(prefix@.drop_last() =~= before + fix_seq.0@.take(j as int));
            assert(fix_seq.0@.take(j + 1) =~= fix_seq.0@.take(j as int).push(m));
            assert(prefix@ =~= before + fix_seq.0@.take(j + 1));
        }
        j = j + 1;
    }
    proof {
        assert(fix_seq.0@.take(j as int) =~= fix_seq.0@);
    }
    Ok(fixed)
}

impl Default for Solver4x4 {
    fn default() -> (r: Self)
        ensures
            r.wf(),
    {
        Self::new()
    }
}

} // verus!
