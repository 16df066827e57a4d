//! 5×5 reduction. A 5×5 is reduced when every face's nine center
//! stickers show that face's solved color and every edge's three
//! stickers agree. The fixed middle sticker pins the orientation, and a
//! reduced 5×5 has no parity cases: it reads as a reachable 3×3. The
//! solver takes an already-reduced cube and hands it to the 3×3 solver;
//! outer layer 3×3 moves carry over unchanged.

use vstd::prelude::*;
use crate::assembly::assembled;
use crate::cube::Cube;
use crate::facelets::{Color, Facelets, cell, face_at, face_at_index, face_color, solved_color, sticker_index, sticker_view};
use crate::moves::{Face, Move, MoveSeq};
use crate::three::cache::{CacheError, TablesView, decoded, encoded, tables_view};
use crate::three::solver::{Solve3x3Error, Solver3x3, cube_view, is_solution};
use crate::three::tables::solved_view;

verus! {

#[derive(Debug, Clone, PartialEq, Eq)]
pub enum Solve5x5Error {
    /// The cube is not a 5×5.
    WrongSize(u8),
    /// Centers are not solved or edges are not assembled.
    NotReducedYet,
    /// The 3×3 phase failed.
    ThreeByThree(Solve3x3Error),
    /// The 3×3 view of the reduced cube did not assemble.
    UnreachableProjection,
}

/// Every face's nine center stickers show the face's solved color.
pub open spec fn centers_solved_spec(st: Seq<Color>) -> bool {
    forall|f: int, row: int, col: int|
        0 <= f < 6 && 1 <= row <= 3 && 1 <= col <= 3 ==> #[trigger] cell(st, 5, f, row, col) == face_color(
            face_at(f),
        )
}

/// Three stickers of face `f` show one color.
pub open spec fn triple_spec(st: Seq<Color>, f: int, a: (int, int), b: (int, int), c: (int, int)) -> bool {
    cell(st, 5, f, b.0, b.1) == cell(st, 5, f, a.0, a.1) && cell(st, 5, f, c.0, c.1) == cell(st, 5, f, a.0, a.1)
}

/// On face `f`, each of the four edges shows one color along its three
/// stickers.
pub open spec fn edges_assembled_on(st: Seq<Color>, f: int) -> bool {
    &&& triple_spec(st, f, (0, 1), (0, 2), (0, 3))
    &&& triple_spec(st, f, (4, 1), (4, 2), (4, 3))
    &&& triple_spec(st, f, (1, 0), (2, 0), (3, 0))
    &&& triple_spec(st, f, (1, 4), (2, 4), (3, 4))
}

pub open spec fn edges_assembled_spec(st: Seq<Color>) -> bool {
    forall|f: int| 0 <= f < 6 ==> #[trigger] edges_assembled_on(st, f)
}

#[verifier::opaque]
pub open spec fn reduced_spec(st: Seq<Color>) -> bool {
    centers_solved_spec(st) && edges_assembled_spec(st)
}

/// Row or column of the 5×5 sticker sampled for 3×3 row or column `k`.
pub open spec fn sample5(k: int) -> int {
    if k == 0 {
        0
    } else if k == 1 {
        2
    } else {
        4
    }
}

/// The 3×3 sticker view read from a 5×5 sticker array: outer corners,
/// middle edge stickers and the fixed centers.
#[verifier::opaque]
pub open spec fn projected5(st: Seq<Color>, n: int) -> Seq<Color> {
    Seq::new(54, |i: int| cell(st, n, i / 9, sample5((i / 3) % 3), sample5(i % 3)))
}

/// True iff every face's nine center stickers show that face's solved
/// color.
pub fn centers_solved(facelets: &Facelets) -> (r: bool)
    requires
        facelets.size == 5 ==> facelets.stickers@.len() == 150,
    ensures
        r == (facelets.size == 5 && centers_solved_spec(facelets.stickers@)),
{
    if facelets.size != 5 {
        return false;
    }
    let ghost st = facelets.stickers@;
    let mut fi: usize = 0;
    while fi < 6
        invariant
            facelets.size == 5,
            st == facelets.stickers@,
            st.len() == 150,
            fi <= 6,
            forall|f: int, row: int, col: int|
                0 <= f < fi && 1 <= row <= 3 && 1 <= col <= 3 ==> #[trigger] cell(st, 5, f, row, col)
                    == face_color(face_at(f)),
        decreases 6 - fi,
    {
        let face = face_at_index(fi);
        let want = solved_color(face);
        let mut row: u8 = 1;
        while row <= 3
            invariant
                facelets.size == 5,
                st == facelets.stickers@,
                st.len() == 150,
                fi < 6,
                face == face_at(fi as int),
                want == face_color(face),
                1 <= row <= 4,
                forall|f: int, r: int, col: int|
                    0 <= f < fi && 1 <= r <= 3 && 1 <= col <= 3 ==> #[trigger] cell(st, 5, f, r, col)
                        == face_color(face_at(f)),
                forall|r: int, col: int|
                    1 <= r < row && 1 <= col <= 3 ==> #[trigger] cell(st, 5, fi as int, r, col) == want,
            decreases 4 - row,
        {
            let mut col: u8 = 1;
            while col <= 3
                invariant
                    facelets.size == 5,
                    st == facelets.stickers@,
                    st.len() == 150,
                    fi < 6,
                    face == face_at(fi as int),
                    want == face_color(face),
                    1 <= row <= 3,
                    1 <= col <= 4,
                    forall|f: int, r: int, c: int|
                        0 <= f < fi && 1 <= r <= 3 && 1 <= c <= 3 ==> #[trigger] cell(st, 5, f, r, c)
                            == face_color(face_at(f)),
                    forall|r: int, c: int|
                        1 <= r < row && 1 <= c <= 3 ==> #[trigger] cell(st, 5, fi as int, r, c) == want,
                    forall|c: int| 1 <= c < col ==> #[trigger] cell(st, 5, fi as int, row as int, c) == want,
                decreases 4 - col,
            {
                if facelets.get(face, row, col) != want {
                    assert(cell(st, 5, fi as int, row as int, col as int) != face_color(face_at(fi as int)));
                    return false;
                }
                col = col + 1;
            }
            row = row + 1;
        }
        fi = fi + 1;
    }
    true
}

/// The three given stickers of `face` all show the first one's color.
fn triple_match(facelets: &Facelets, face: Face, cells: [(u8, u8); 3]) -> (r: bool)
    requires
        facelets.size == 5,
        facelets.stickers@.len() == 150,
        forall|k: int| 0 <= k < 3 ==> (#[trigger] cells@[k]).0 < 5 && cells@[k].1 < 5,
    ensures
        r == triple_spec(
            facelets.stickers@,
            crate::facelets::face_index(face),
            (cells@[0].0 as int, cells@[0].1 as int),
            (cells@[1].0 as int, cells@[1].1 as int),
            (cells@[2].0 as int, cells@[2].1 as int),
        ),
{
    proof {
        assert(face_at(crate::facelets::face_index(face)) == face);
    }
    let first = facelets.get(face, cells[0].0, cells[0].1);
    let mut k: usize = 0;
    while k < 3
        invariant
            facelets.size == 5,
            facelets.stickers@.len() == 150,
            forall|j: int| 0 <= j < 3 ==> (#[trigger] cells@[j]).0 < 5 && cells@[j].1 < 5,
            first == facelets.stickers@[sticker_index(face, 5, cells@[0].0 as int, cells@[0].1 as int)],
            k <= 3,
            forall|j: int|
                0 <= j < k ==> facelets.stickers@[sticker_index(face, 5, (#[trigger] cells@[j]).0 as int, cells@[j].1 as int)]
                    == first,
        decreases 3 - k,
    {
        let (r, c) = cells[k];
        if facelets.get(face, r, c) != first {
            return false;
        }
        k = k + 1;
    }
    proof {
        assert(cells@[1] == cells@[1]);
        assert(cells@[2] == cells@[2]);
    }
    true
}

/// True iff every edge shows one color along its three stickers on both
/// faces it touches.
pub fn edges_assembled(facelets: &Facelets) -> (r: bool)
    requires
        facelets.size == 5 ==> facelets.stickers@.len() == 150,
    ensures
        r == (facelets.size == 5 && edges_assembled_spec(facelets.stickers@)),
{
    if facelets.size != 5 {
        return false;
    }
    let ghost st = facelets.stickers@;
    let mut fi: usize = 0;
    while fi < 6
        invariant
            facelets.size == 5,
            st == facelets.stickers@,
            st.len() == 150,
            fi <= 6,
            forall|f: int| 0 <= f < fi ==> #[trigger] edges_assembled_on(st, f),
        decreases 6 - fi,
    {
        let face = face_at_index(fi);
        let top = triple_match(facelets, face, [(0, 1), (0, 2), (0, 3)]);
        let bottom = triple_match(facelets, face, [(4, 1), (4, 2), (4, 3)]);
        let left = triple_match(facelets, face, [(1, 0), (2, 0), (3, 0)]);
        let right = triple_match(facelets, face, [(1, 4), (2, 4), (3, 4)]);
        assert(top == triple_spec(st, fi as int, (0, 1), (0, 2), (0, 3)));
        assert(bottom == triple_spec(st, fi as int, (4, 1), (4, 2), (4, 3)));
        assert(left == triple_spec(st, fi as int, (1, 0), (2, 0), (3, 0)));
        assert(right == triple_spec(st, fi as int, (1, 4), (2, 4), (3, 4)));
        if !(top && bottom && left && right) {
            assert(!edges_assembled_on(st, fi as int));
            return false;
        }
        assert(edges_assembled_on(st, fi as int));
        fi = fi + 1;
    }
    true
}

/// True iff centers are solved and edges are assembled.
pub fn is_reduced(facelets: &Facelets) -> (r: bool)
    requires
        facelets.size == 5 ==> facelets.stickers@.len() == 150,
    ensures
        r == (facelets.size == 5 && reduced_spec(facelets.stickers@)),
{
    proof {
        reveal(reduced_spec);
    }
    centers_solved(facelets) && edges_assembled(facelets)
}

fn sample_5x5(k: u8) -> (r: u8)
    requires
        k < 3,
    ensures
        r == sample5(k as int),
        r < 5,
{
    if k == 0 {
        0
    } else if k == 1 {
        2
    } else {
        4
    }
}

/// Project a 5×5 sticker view to a 3×3 sticker view by sampling one
/// sticker per 3×3 cell. Meaningful on a reduced 5×5.
pub fn project_to_3x3(facelets: &Facelets) -> (r: Facelets)
    requires
        facelets.size >= 5,
        facelets.stickers@.len() == 6 * facelets.size * facelets.size,
    ensures
        r.size == 3,
        r.stickers@.len() == 54,
        r.stickers@ == projected5(facelets.stickers@, facelets.size as int),
        forall|f: int, row: int, col: int|
            0 <= f < 6 && 0 <= row < 3 && 0 <= col < 3 ==> r.stickers@[sticker_index(face_at(f), 3, row, col)]
                == #[trigger] cell(facelets.stickers@, facelets.size as int, f, sample5(row), sample5(col)),
{
    let ghost st = facelets.stickers@;
    let ghost target = projected5(st, facelets.size as int);
    let mut out: Vec<Color> = Vec::with_capacity(54);
    let mut k: usize = 0;
    while k < 54
        invariant
            facelets.size >= 5,
            st == facelets.stickers@,
            st.len() == 6 * facelets.size * facelets.size,
            target == projected5(st, facelets.size as int),
            k <= 54,
            out@ =~= target.take(k as int),
        decreases 54 - k,
    {
        let face = face_at_index(k / 9);
        let row = sample_5x5(((k / 3) % 3) as u8);
        let col = sample_5x5((k % 3) as u8);
        let c = facelets.get(face, row, col);
        out.push(c);
        proof {
            reveal(projected5);
            assert(target.take(k + 1) =~= target.take(k as int).push(target[k as int]));
        }
        k = k + 1;
    }
    proof {
        reveal(projected5);
        assert(target.take(54) =~= target);
        assert forall|f: int, row: int, col: int| 0 <= f < 6 && 0 <= row < 3 && 0 <= col < 3 implies out@[sticker_index(
            face_at(f),
            3,
            row,
            col,
        )] == #[trigger] cell(st, facelets.size as int, f, sample5(row), sample5(col)) by {
            assert(crate::facelets::face_index(face_at(f)) == f);
            let i = f * 9 + row * 3 + col;
            assert(sticker_index(face_at(f), 3, row, col) == i);
            assert(i / 9 == f);
            assert((i / 3) % 3 == row);
            assert(i % 3 == col);
        }
    }
    Facelets { size: 3, stickers: out }
}

/// 5×5 reduction-aware solver; owns a 3×3 solver.
pub struct Solver5x5 {
    pub solver_3x3: Solver3x3,
}

impl Solver5x5 {
    pub open spec fn wf(&self) -> bool {
        self.solver_3x3.wf()
    }

    pub fn new() -> (r: Self)
        ensures
            r.wf(),
    {
        Self { solver_3x3: Solver3x3::new() }
    }

    /// A solver whose inner 3×3 tables come from cache bytes when they
    /// decode; otherwise they are built and handed back encoded for the
    /// caller to store.
    pub fn new_with_cache(cached: &[u8]) -> (r: (Self, Option<Vec<u8>>))
        ensures
            r.0.wf(),
            decoded(cached@) is Ok ==> decoded(cached@) == Ok::<TablesView, CacheError>(
                tables_view(r.0.solver_3x3.pruning),
            ) && r.1 is None,
            decoded(cached@) is Err ==> r.0.solver_3x3.pruning.wf() && (r.1 matches Some(b) && b@ == encoded(
                tables_view(r.0.solver_3x3.pruning),
            )),
    {
        let (solver_3x3, fresh) = Solver3x3::new_with_cache(cached);
        (Self { solver_3x3 }, fresh)
    }

    /// Solve an already-reduced 5×5 through its 3×3 view.
    pub fn solve(&self, cube: &Cube) -> (r: Result<MoveSeq, Solve5x5Error>)
        requires
            self.wf(),
            cube.wf(),
        ensures
            cube.size != 5 ==> r == Err::<MoveSeq, Solve5x5Error>(Solve5x5Error::WrongSize(cube.size)),
            cube.size == 5 ==> (r == Err::<MoveSeq, Solve5x5Error>(Solve5x5Error::NotReducedYet) <==> !reduced_spec(
                sticker_view(cube.cubies@, 5),
            )),
            cube.size == 5 && reduced_spec(sticker_view(cube.cubies@, 5)) ==> (r == Err::<
                MoveSeq,
                Solve5x5Error,
            >(Solve5x5Error::UnreachableProjection) <==> assembled(
                projected5(sticker_view(cube.cubies@, 5), 5),
                3,
            ) is None),
            r matches Ok(ms) ==> assembled(projected5(sticker_view(cube.cubies@, 5), 5), 3) is Some && is_solution(
                &self.solver_3x3,
                cube_view(assembled(projected5(sticker_view(cube.cubies@, 5), 5), 3)->Some_0),
                ms.0@,
            ),
            r matches Err(Solve5x5Error::ThreeByThree(e)) ==> e is Phase1NoSolution || e is Phase2NoSolution,
            cube.size == 5 && reduced_spec(sticker_view(cube.cubies@, 5)) && assembled(
                projected5(sticker_view(cube.cubies@, 5), 5),
                3,
            ) is Some && solved_view(cube_view(assembled(projected5(sticker_view(cube.cubies@, 5), 5), 3)->Some_0))
                ==> (r matches Ok(ms) && ms.0@.len() == 0),
    {
        if cube.size != 5 {
            return Err(Solve5x5Error::WrongSize(cube.size));
        }
        let facelets = Facelets::from_cube(cube);
        if !is_reduced(&facelets) {
            return Err(Solve5x5Error::NotReducedYet);
        }
        let three_view = project_to_3x3(&facelets);
        let three_cube = match three_view.try_into_cube() {
            Ok(c) => c,
            Err(_) => {
                return Err(Solve5x5Error::UnreachableProjection);
            },
        };
        let ghost st3 = projected5(facelets.stickers@, 5);
        proof {
            crate::assembly::lemma_assembled_wf(st3, 3);
            crate::three::state::lemma_assembled_kinds(st3);
        }
        match self.solver_3x3.solve(&three_cube) {
            Ok(s) => Ok(s),
            Err(e) => Err(Solve5x5Error::ThreeByThree(e)),
        }
    }
}

impl Default for Solver5x5 {
    fn default() -> (r: Self)
        ensures
            r.wf(),
    {
        Self::new()
    }
}

} // verus!
