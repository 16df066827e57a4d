//! Goals a practice step waits for, evaluated on the sticker view of a
//! live cube.

use vstd::prelude::*;
use crate::cube::Cube;
use crate::facelets::{Color, Facelets, facelets_of, solved_stickers, sticker_index};
use crate::moves::Face;

verus! {

/// Camera focus of an explanation step.
#[derive(Debug, Clone, Copy, PartialEq, Eq)]
pub enum CameraPreset {
    /// Default orbit camera, no special focus.
    Default,
    /// Look down at the U face.
    Top,
    /// Look at the F face.
    Front,
    /// Look at the corner between U, R and F.
    UrfCorner,
}

/// Playback speed of a demonstration.
#[derive(Debug, Clone, Copy, PartialEq, Eq)]
pub enum AnimSpeed {
    Slow,
    Normal,
    Fast,
}

/// One of the four first-two-layers slots.
#[derive(Debug, Clone, Copy, PartialEq, Eq, Structural)]
pub enum F2LSlot {
    Fr,
    Fl,
    Br,
    Bl,
}

#[derive(Debug, Clone, PartialEq, Eq)]
pub enum GoalPredicate {
    WhiteCrossSolved,
    WhiteFaceSolved,
    F2LPairSolved {
        /// Which slot the corner and edge pair must be solved in.
        slot: F2LSlot,
    },
    YellowCrossOriented,
    /// All top stickers one color.
    OllSolved,
    /// Cube fully solved (sticker view).
    Solved,
    /// Resolved by the step engine; unknown ids are false.
    Custom(String),
}

/// Sticker `(r, c)` of face `f` of a size-`n` sticker array.
pub open spec fn at(st: Seq<Color>, n: int, f: Face, r: int, c: int) -> Color {
    st[sticker_index(f, n, r, c)]
}

/// Every sticker of the U face shows the color of its first sticker.
pub open spec fn top_uniform(st: Seq<Color>, n: int) -> bool {
    forall|r: int, c: int| 0 <= r < n && 0 <= c < n ==> #[trigger] at(st, n, Face::U, r, c) == at(st, n, Face::U, 0, 0)
}

/// The U face's middle row and column are U-colored, and the top middle
/// sticker of F, R, B and L shows that face's color.
pub open spec fn white_cross(st: Seq<Color>, n: int) -> bool {
    let mid = n / 2;
    &&& n >= 3
    &&& forall|r: int| 0 <= r < n ==> #[trigger] at(st, n, Face::U, r, mid) == Color::U
    &&& forall|c: int| 0 <= c < n ==> #[trigger] at(st, n, Face::U, mid, c) == Color::U
    &&& at(st, n, Face::F, 0, mid) == Color::F
    &&& at(st, n, Face::R, 0, mid) == Color::R
    &&& at(st, n, Face::B, 0, mid) == Color::B
    &&& at(st, n, Face::L, 0, mid) == Color::L
}

/// The top row of face `f` shows color `c` throughout.
pub open spec fn top_row(st: Seq<Color>, n: int, f: Face, color: Color) -> bool {
    forall|c: int| 0 <= c < n ==> #[trigger] at(st, n, f, 0, c) == color
}

/// The U face is uniform and the side faces' top rows show their colors.
pub open spec fn white_face(st: Seq<Color>, n: int) -> bool {
    &&& top_uniform(st, n)
    &&& top_row(st, n, Face::F, Color::F)
    &&& top_row(st, n, Face::R, Color::R)
    &&& top_row(st, n, Face::B, Color::B)
    &&& top_row(st, n, Face::L, Color::L)
}

/// The corner and edge stickers of an F2L slot show their faces' colors.
pub open spec fn f2l_pair(st: Seq<Color>, n: int, slot: F2LSlot) -> bool {
    let mid = n / 2;
    let last = n - 1;
    &&& n >= 3
    &&& match slot {
        F2LSlot::Fr => at(st, n, Face::D, 0, last) == Color::D && at(st, n, Face::F, last, last) == Color::F && at(
            st,
            n,
            Face::R,
            last,
            0,
        ) == Color::R && at(st, n, Face::F, mid, last) == Color::F && at(st, n, Face::R, mid, 0) == Color::R,
        F2LSlot::Fl => at(st, n, Face::D, 0, 0) == Color::D && at(st, n, Face::F, last, 0) == Color::F && at(
            st,
            n,
            Face::L,
            last,
            last,
        ) == Color::L && at(st, n, Face::F, mid, 0) == Color::F && at(st, n, Face::L, mid, last) == Color::L,
        F2LSlot::Br => at(st, n, Face::D, last, last) == Color::D && at(st, n, Face::B, last, 0) == Color::B && at(
            st,
            n,
            Face::R,
            last,
            last,
        ) == Color::R && at(st, n, Face::B, mid, 0) == Color::B && at(st, n, Face::R, mid, last) == Color::R,
        F2LSlot::Bl => at(st, n, Face::D, last, 0) == Color::D && at(st, n, Face::B, last, last) == Color::B && at(
            st,
            n,
            Face::L,
            last,
            0,
        ) == Color::L && at(st, n, Face::B, mid, last) == Color::B && at(st, n, Face::L, mid, 0) == Color::L,
    }
}

/// The four U-face edge stickers next to the middle show the middle's
/// color.
pub open spec fn yellow_cross(st: Seq<Color>, n: int) -> bool {
    let mid = n / 2;
    let cc = at(st, n, Face::U, mid, mid);
    &&& n >= 3
    &&& at(st, n, Face::U, 0, mid) == cc
    &&& at(st, n, Face::U, mid, 0) == cc
    &&& at(st, n, Face::U, mid, n - 1) == cc
    &&& at(st, n, Face::U, n - 1, mid) == cc
}

/// Whether goal `g` holds of a cube with sticker view `st` and size `n`.
pub open spec fn goal_holds(g: GoalPredicate, st: Seq<Color>, n: int) -> bool {
    match g {
        GoalPredicate::Solved => st == solved_stickers(n),
        GoalPredicate::OllSolved => top_uniform(st, n),
        GoalPredicate::WhiteCrossSolved => white_cross(st, n),
        GoalPredicate::WhiteFaceSolved => white_face(st, n),
        GoalPredicate::F2LPairSolved { slot } => f2l_pair(st, n, slot),
        GoalPredicate::YellowCrossOriented => yellow_cross(st, n),
        GoalPredicate::Custom(_) => false,
    }
}

/// The yellow-cross goal holds exactly on cubes of size at least 3 whose
/// U-face edge stickers in the middle row and middle column, the stickers
/// on the border of the face in line with its centre, all show the
/// centre's color.
pub proof fn lemma_yellow_cross_goal(st: Seq<Color>, n: int)
    ensures
        goal_holds(GoalPredicate::YellowCrossOriented, st, n) <==> (n >= 3 && forall|r: int, c: int|
            0 <= r < n && 0 <= c < n && (r == n / 2 || c == n / 2) && (r == 0 || r == n - 1 || c == 0 || c == n - 1)
                ==> #[trigger] at(st, n, Face::U, r, c) == at(st, n, Face::U, n / 2, n / 2)),
{
    let mid = n / 2;
    let cc = at(st, n, Face::U, mid, mid);
    if goal_holds(GoalPredicate::YellowCrossOriented, st, n) {
        assert forall|r: int, c: int|
            0 <= r < n && 0 <= c < n && (r == mid || c == mid) && (r == 0 || r == n - 1 || c == 0 || c == n - 1)
                implies #[trigger] at(st, n, Face::U, r, c) == cc by {
            if r == mid {
                assert(c == 0 || c == n - 1 || r == 0 || r == n - 1);
                if c == 0 || c == n - 1 {
                } else {
                    assert(false);
                }
            } else {
                assert(c == mid);
            }
        }
    }
    if n >= 3 && forall|r: int, c: int|
        0 <= r < n && 0 <= c < n && (r == mid || c == mid) && (r == 0 || r == n - 1 || c == 0 || c == n - 1)
            ==> #[trigger] at(st, n, Face::U, r, c) == cc {
        assert(at(st, n, Face::U, 0, mid) == cc);
        assert(at(st, n, Face::U, mid, 0) == cc);
        assert(at(st, n, Face::U, mid, n - 1) == cc);
        assert(at(st, n, Face::U, n - 1, mid) == cc);
    }
}

impl GoalPredicate {
    /// Evaluate the predicate against a live cube through its sticker
    /// view.
    pub fn evaluate(&self, cube: &Cube) -> (r: bool)
        requires
            cube.wf(),
        ensures
            r == goal_holds(*self, facelets_of(*cube), cube.size as int),
    {
        let f = Facelets::from_cube(cube);
        match self {
            GoalPredicate::Solved => cube.is_solved(),
            GoalPredicate::OllSolved => is_top_face_uniform(&f),
            GoalPredicate::WhiteCrossSolved => is_white_cross_solved(&f),
            GoalPredicate::WhiteFaceSolved => is_white_face_solved(&f, cube.size),
            GoalPredicate::F2LPairSolved { slot } => is_f2l_pair_solved(&f, *slot),
            GoalPredicate::YellowCrossOriented => is_yellow_cross_oriented(&f),
            GoalPredicate::Custom(_) => false,
        }
    }
}

/// Facelets whose sticker array fits their size.
pub open spec fn sized(f: Facelets) -> bool {
    1 <= f.size && f.stickers@.len() == 6 * f.size * f.size
}

fn is_top_face_uniform(f: &Facelets) -> (r: bool)
    requires
        sized(*f),
    ensures
        r == top_uniform(f.stickers@, f.size as int),
{
    let n = f.size;
    let ghost st = f.stickers@;
    let ghost ni = n as int;
    let first = f.get(Face::U, 0, 0);
    let mut row: u8 = 0;
    while row < n
        invariant
            sized(*f),
            n == f.size,
            st == f.stickers@,
            ni == n,
            first == at(st, ni, Face::U, 0, 0),
            row <= n,
            forall|r: int, c: int| 0 <= r < row && 0 <= c < n ==> #[trigger] at(st, ni, Face::U, r, c) == first,
        decreases n - row,
    {
        let mut col: u8 = 0;
        while col < n
            invariant
                sized(*f),
                n == f.size,
                st == f.stickers@,
                ni == n,
                first == at(st, ni, Face::U, 0, 0),
                row < n,
                col <= n,
                forall|r: int, c: int| 0 <= r < row && 0 <= c < n ==> #[trigger] at(st, ni, Face::U, r, c) == first,
                forall|c: int| 0 <= c < col ==> #[trigger] at(st, ni, Face::U, row as int, c) == first,
            decreases n - col,
        {
            if f.get(Face::U, row, col) != first {
                assert(at(st, ni, Face::U, row as int, col as int) != at(st, ni, Face::U, 0, 0));
                return false;
            }
            col = col + 1;
        }
        row = row + 1;
    }
    true
}

/// Stickers `(r, col)` of the U face for every row `r` show U.
fn column_is_u(f: &Facelets, col: u8) -> (r: bool)
    requires
        sized(*f),
        col < f.size,
    ensures
        r == (forall|row: int| 0 <= row < f.size ==> #[trigger] at(f.stickers@, f.size as int, Face::U, row, col as int) == Color::U),
{
    let mut row: u8 = 0;
    while row < f.size
        invariant
            sized(*f),
            col < f.size,
            row <= f.size,
            forall|r: int| 0 <= r < row ==> #[trigger] at(f.stickers@, f.size as int, Face::U, r, col as int) == Color::U,
        decreases f.size - row,
    {
        if f.get(Face::U, row, col) != Color::U {
            assert(at(f.stickers@, f.size as int, Face::U, row as int, col as int) != Color::U);
            return false;
        }
        row = row + 1;
    }
    true
}

/// The top row of `face` shows `color` throughout.
fn top_row_is(f: &Facelets, face: Face, color: Color, row: u8) -> (r: bool)
    requires
        sized(*f),
        row < f.size,
    ensures
        r == (forall|c: int| 0 <= c < f.size ==> #[trigger] at(f.stickers@, f.size as int, face, row as int, c) == color),
{
    let mut col: u8 = 0;
    while col < f.size
        invariant
            sized(*f),
            row < f.size,
            col <= f.size,
            forall|c: int| 0 <= c < col ==> #[trigger] at(f.stickers@, f.size as int, face, row as int, c) == color,
        decreases f.size - col,
    {
        if f.get(face, row, col) != color {
            assert(at(f.stickers@, f.size as int, face, row as int, col as int) != color);
            return false;
        }
        col = col + 1;
    }
    true
}

fn is_white_cross_solved(f: &Facelets) -> (r: bool)
    requires
        sized(*f),
    ensures
        r == white_cross(f.stickers@, f.size as int),
{
    let n = f.size;
    if n < 3 {
        return false;
    }
    let mid = n / 2;
    let center_col_ok = column_is_u(f, mid);
    let center_row_ok = top_row_is(f, Face::U, Color::U, mid);
    if !center_col_ok || !center_row_ok {
        return false;
    }
    f.get(Face::F, 0, mid) == Color::F && f.get(Face::R, 0, mid) == Color::R && f.get(Face::B, 0, mid) == Color::B
        && f.get(Face::L, 0, mid) == Color::L
}

fn is_white_face_solved(f: &Facelets, size: u8) -> (r: bool)
    requires
        sized(*f),
        size == f.size,
    ensures
        r == white_face(f.stickers@, f.size as int),
{
    let u_uniform = is_top_face_uniform(f);
    u_uniform && top_row_is(f, Face::F, Color::F, 0) && top_row_is(f, Face::R, Color::R, 0) && top_row_is(
        f,
        Face::B,
        Color::B,
        0,
    ) && top_row_is(f, Face::L, Color::L, 0)
}

fn is_f2l_pair_solved(f: &Facelets, slot: F2LSlot) -> (r: bool)
    requires
        sized(*f),
    ensures
        r == f2l_pair(f.stickers@, f.size as int, slot),
{
    let n = f.size;
    if n < 3 {
        return false;
    }
    let mid = n / 2;
    let last = n - 1;
    match slot {
        F2LSlot::Fr => {
            let corner = f.get(Face::D, 0, last) == Color::D && f.get(Face::F, last, last) == Color::F && f.get(
                Face::R,
                last,
                0,
            ) == Color::R;
            let edge = f.get(Face::F, mid, last) == Color::F && f.get(Face::R, mid, 0) == Color::R;
            corner && edge
        },
        F2LSlot::Fl => {
            let corner = f.get(Face::D, 0, 0) == Color::D && f.get(Face::F, last, 0) == Color::F && f.get(
                Face::L,
                last,
                last,
            ) == Color::L;
            let edge = f.get(Face::F, mid, 0) == Color::F && f.get(Face::L, mid, last) == Color::L;
            corner && edge
        },
        F2LSlot::Br => {
            let corner = f.get(Face::D, last, last) == Color::D && f.get(Face::B, last, 0) == Color::B && f.get(
                Face::R,
                last,
                last,
            ) == Color::R;
            let edge = f.get(Face::B, mid, 0) == Color::B && f.get(Face::R, mid, last) == Color::R;
            corner && edge
        },
        F2LSlot::Bl => {
            let corner = f.get(Face::D, last, 0) == Color::D && f.get(Face::B, last, last) == Color::B && f.get(
                Face::L,
                last,
                0,
            ) == Color::L;
            let edge = f.get(Face::B, mid, last) == Color::B && f.get(Face::L, mid, 0) == Color::L;
            corner && edge
        },
    }
}

fn is_yellow_cross_oriented(f: &Facelets) -> (r: bool)
    requires
        sized(*f),
    ensures
        r == yellow_cross(f.stickers@, f.size as int),
{
    let n = f.size;
    if n < 3 {
        return false;
    }
    let mid = n / 2;
    let cross_color = f.get(Face::U, mid, mid);
    f.get(Face::U, 0, mid) == cross_color && f.get(Face::U, mid, 0) == cross_color && f.get(Face::U, mid, n - 1)
        == cross_color && f.get(Face::U, n - 1, mid) == cross_color
}

} // verus!
