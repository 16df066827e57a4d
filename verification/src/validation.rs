//! The sticker-input validation pipeline: every problem in a sticker
//! array, in the order the checks run.

use vstd::prelude::*;
use crate::assembly::{
    all_colors, assembled, color_list, colors_of, count_color, count_of, facelet_count,
    home_colors, read_stickers, read_stickers_at, same_colors, sticker_colors,
};
use crate::cube::{Cube, corner_twist, in_lattice, on_shell, position_parity};
use crate::assembly::{
    colors_for_dirs, exposed_directions, lemma_assign_pieces, lemma_corner_home_three,
    lemma_three_stickers_corner, same_color_counts,
};
use crate::error::CubeError;
use crate::cube::{Cubie, corner_twist_spec, visible_spec};
use crate::error::{FaceletValidationError, ValidationIssue, issues_of};
use crate::facelets::{Color, Facelets};
use crate::orient::{apply_rot, rot_of};
use crate::vec3::{IVec3, ivec};

verus! {

// ---------------------------------------------------------------------
// Color counts.
// ---------------------------------------------------------------------

pub open spec fn count_issue(st: Seq<Color>, n: int, c: Color) -> Seq<ValidationIssue> {
    if count_color(st, c) != n * n {
        seq![
            ValidationIssue::BadColorCount {
                color: c,
                got: count_color(st, c) as usize,
                expected: (n * n) as usize,
            },
        ]
    } else {
        Seq::empty()
    }
}

/// Wrong color counts, over the first `k` colors of `U D F B R L`.
pub open spec fn count_issues_upto(st: Seq<Color>, n: int, k: int) -> Seq<ValidationIssue>
    decreases k,
{
    if k <= 0 {
        Seq::empty()
    } else {
        count_issues_upto(st, n, k - 1) + count_issue(st, n, color_list()[k - 1])
    }
}

// ---------------------------------------------------------------------
// Colors on one piece.
// ---------------------------------------------------------------------

pub open spec fn opposite_colors(a: Color, b: Color) -> bool {
    match (a, b) {
        (Color::U, Color::D) | (Color::D, Color::U) | (Color::F, Color::B) | (Color::B, Color::F)
        | (Color::R, Color::L) | (Color::L, Color::R) => true,
        _ => false,
    }
}

pub open spec fn pair_issue(pos: IVec3, a: Color, b: Color) -> Seq<ValidationIssue> {
    if a == b {
        seq![ValidationIssue::DuplicateColorOnPiece { pos, color: a }]
    } else if opposite_colors(a, b) {
        seq![ValidationIssue::OppositeColorsOnPiece { pos, a, b }]
    } else {
        Seq::empty()
    }
}

/// Problems between color `i` and colors `i+1 .. j` of a piece.
pub open spec fn row_issues(cs: Seq<Color>, pos: IVec3, i: int, j: int) -> Seq<ValidationIssue>
    decreases j - i,
{
    if j <= i + 1 {
        Seq::empty()
    } else {
        row_issues(cs, pos, i, j - 1) + pair_issue(pos, cs[i], cs[j - 1])
    }
}

/// Problems among all pairs `(i, j)`, `i < j`, with `i` below `k`.
pub open spec fn pair_issues_upto(cs: Seq<Color>, pos: IVec3, k: int) -> Seq<ValidationIssue>
    decreases k,
{
    if k <= 0 {
        Seq::empty()
    } else {
        pair_issues_upto(cs, pos, k - 1) + row_issues(cs, pos, k - 1, cs.len() as int)
    }
}

pub open spec fn piece_issue(st: Seq<Color>, n: int, pos: IVec3) -> Seq<ValidationIssue> {
    let cs = colors_of(read_stickers(st, n, pos));
    pair_issues_upto(cs, pos, cs.len() as int)
}

/// Duplicate and opposite colors over the pieces at `ps`, in order.
pub open spec fn piece_issues(st: Seq<Color>, n: int, ps: Seq<IVec3>) -> Seq<ValidationIssue>
    decreases ps.len(),
{
    if ps.len() == 0 {
        Seq::empty()
    } else {
        piece_issues(st, n, ps.drop_last()) + piece_issue(st, n, ps.last())
    }
}

// ---------------------------------------------------------------------
// Invariants of a rebuilt cube.
// ---------------------------------------------------------------------

pub open spec fn abs_is(c: int, o: int) -> bool {
    c == o || c == -o
}

pub open spec fn is_corner(p: IVec3, n: int) -> bool {
    abs_is(p.x as int, n - 1) && abs_is(p.y as int, n - 1) && abs_is(p.z as int, n - 1)
}

/// Exactly two coordinates lie on the outer shell.
pub open spec fn is_edge(p: IVec3, n: int) -> bool {
    (if abs_is(p.x as int, n - 1) { 1int } else { 0int }) + (if abs_is(p.y as int, n - 1) {
        1int
    } else {
        0int
    }) + (if abs_is(p.z as int, n - 1) { 1int } else { 0int }) == 2
}

/// Edge orientation against the current slot: the primary sticker (U/D
/// for pieces from the U or D layer, F/B for the middle layer) is good
/// when it faces Y in a U/D-layer slot, or Z in a middle-layer slot.
pub open spec fn slot_edge_orient(c: Cubie) -> u8 {
    let h = c.solved_pos;
    let primary = if h.y != 0 {
        if h.y > 0 {
            ivec(0, 1, 0)
        } else {
            ivec(0, -1, 0)
        }
    } else if h.z > 0 {
        ivec(0, 0, 1)
    } else {
        ivec(0, 0, -1)
    };
    let now = apply_rot(rot_of(c.orientation.0 as int), primary);
    let now_axis = if now.x != 0 {
        0int
    } else if now.y != 0 {
        1int
    } else {
        2int
    };
    let good_axis = if c.current_pos.y != 0 {
        1int
    } else {
        2int
    };
    if now_axis == good_axis {
        0
    } else {
        1
    }
}

pub open spec fn corner_sum(cs: Seq<Cubie>, n: int) -> nat
    decreases cs.len(),
{
    if cs.len() == 0 {
        0
    } else {
        corner_sum(cs.drop_last(), n) + if is_corner(cs.last().solved_pos, n) {
            corner_twist_spec(cs.last()) as nat
        } else {
            0nat
        }
    }
}

pub open spec fn edge_sum(cs: Seq<Cubie>, n: int) -> nat
    decreases cs.len(),
{
    if cs.len() == 0 {
        0
    } else {
        edge_sum(cs.drop_last(), n) + if is_edge(cs.last().solved_pos, n) {
            slot_edge_orient(cs.last()) as nat
        } else {
            0nat
        }
    }
}

pub open spec fn of_kind(p: IVec3, n: int, corners: bool) -> bool {
    if corners {
        is_corner(p, n)
    } else {
        is_edge(p, n)
    }
}

/// Homes of the pieces of one kind, in piece order.
pub open spec fn kind_homes(cs: Seq<Cubie>, n: int, corners: bool) -> Seq<IVec3>
    decreases cs.len(),
{
    if cs.len() == 0 {
        Seq::empty()
    } else {
        let prev = kind_homes(cs.drop_last(), n, corners);
        if of_kind(cs.last().solved_pos, n, corners) {
            prev.push(cs.last().solved_pos)
        } else {
            prev
        }
    }
}

/// Index of the first piece sitting at `p`, or -1.
pub open spec fn first_piece_at(cs: Seq<Cubie>, p: IVec3) -> int
    decreases cs.len(),
{
    if cs.len() == 0 {
        -1
    } else {
        let k = first_piece_at(cs.drop_last(), p);
        if k >= 0 {
            k
        } else if cs.last().current_pos == p {
            cs.len() - 1
        } else {
            -1
        }
    }
}

/// Index of the first occurrence of `p`, or -1.
pub open spec fn first_index_of(hs: Seq<IVec3>, p: IVec3) -> int
    decreases hs.len(),
{
    if hs.len() == 0 {
        -1
    } else {
        let k = first_index_of(hs.drop_last(), p);
        if k >= 0 {
            k
        } else if hs.last() == p {
            hs.len() - 1
        } else {
            -1
        }
    }
}

/// For the slot at home `slot`, the index among `hs` of the piece found
/// there (0 if the slot is empty or holds a piece of another kind).
pub open spec fn perm_entry(cs: Seq<Cubie>, hs: Seq<IVec3>, slot: IVec3) -> int {
    let k = first_piece_at(cs, slot);
    if k < 0 {
        0
    } else {
        let j = first_index_of(hs, cs[k].solved_pos);
        if j < 0 {
            0
        } else {
            j
        }
    }
}

pub open spec fn kind_perm(cs: Seq<Cubie>, n: int, corners: bool) -> Seq<int> {
    let hs = kind_homes(cs, n, corners);
    hs.map_values(|slot: IVec3| perm_entry(cs, hs, slot))
}

/// Number of entries of `s` greater than `x`.
pub open spec fn count_greater(s: Seq<int>, x: int) -> nat
    decreases s.len(),
{
    if s.len() == 0 {
        0
    } else {
        count_greater(s.drop_last(), x) + if s.last() > x {
            1nat
        } else {
            0nat
        }
    }
}

/// Number of pairs `i < j` with `s[i] > s[j]`.
pub open spec fn inversions(s: Seq<int>) -> nat
    decreases s.len(),
{
    if s.len() == 0 {
        0
    } else {
        inversions(s.drop_last()) + count_greater(s.drop_last(), s.last())
    }
}

/// Sign of a permutation: 1 when even, -1 when odd.
pub open spec fn perm_sign(s: Seq<int>) -> i32 {
    if inversions(s) % 2 == 0 {
        1i32
    } else {
        -1i32
    }
}

pub open spec fn reach_issues(cs: Seq<Cubie>, n: int) -> Seq<ValidationIssue> {
    let csum = corner_sum(cs, n);
    let c1 = if csum % 3 != 0 {
        seq![ValidationIssue::CornerOrientationSum { sum: csum as u32, modulus: (csum % 3) as u32 }]
    } else {
        Seq::empty()
    };
    if n == 3 {
        let esum = edge_sum(cs, n);
        let e1 = if esum % 2 != 0 {
            seq![ValidationIssue::EdgeOrientationSum { sum: esum as u32, modulus: (esum % 2) as u32 }]
        } else {
            Seq::empty()
        };
        let cp = perm_sign(kind_perm(cs, n, true));
        let ep = perm_sign(kind_perm(cs, n, false));
        let p1 = if cp != ep {
            seq![ValidationIssue::PermParityMismatch { corner_parity: cp, edge_parity: ep }]
        } else {
            Seq::empty()
        };
        c1 + e1 + p1
    } else {
        c1
    }
}

// ---------------------------------------------------------------------
// Stickers that no piece explains.
// ---------------------------------------------------------------------

/// Some piece of a solved cube carries the colors found at `pos`.
pub open spec fn has_canonical(st: Seq<Color>, n: int, pos: IVec3) -> bool {
    exists|k: int|
        0 <= k < visible_spec(n).len() && same_colors(
            home_colors(#[trigger] visible_spec(n)[k], n),
            colors_of(read_stickers(st, n, pos)),
        )
}

/// First position among `ps` whose colors belong to no piece.
pub open spec fn first_unknown(st: Seq<Color>, n: int, ps: Seq<IVec3>) -> Option<IVec3>
    decreases ps.len(),
{
    if ps.len() == 0 {
        None
    } else {
        match first_unknown(st, n, ps.drop_last()) {
            Some(p) => Some(p),
            None => if !has_canonical(st, n, ps.last()) {
                Some(ps.last())
            } else {
                None
            },
        }
    }
}

/// The colors of `s` sorted in the order `U D F B R L`, over the first
/// `k` colors of that order.
pub open spec fn sorted_upto(s: Seq<Color>, k: int) -> Seq<Color>
    decreases k,
{
    if k <= 0 {
        Seq::empty()
    } else {
        sorted_upto(s, k - 1) + Seq::new(count_color(s, color_list()[k - 1]), |i: int| color_list()[k - 1])
    }
}

pub open spec fn sorted_colors(s: Seq<Color>) -> Seq<Color> {
    sorted_upto(s, 6)
}

pub open spec fn unknown_issues(st: Seq<Color>, n: int) -> Seq<ValidationIssue> {
    match first_unknown(st, n, visible_spec(n)) {
        Some(p) => seq![
            ValidationIssue::UnknownCubieAt {
                pos: p,
                colors: sorted_colors(colors_of(read_stickers(st, n, p))),
            },
        ],
        None => seq![ValidationIssue::NotReachable],
    }
}

// ---------------------------------------------------------------------
// The whole pipeline.
// ---------------------------------------------------------------------

/// Every problem in sticker array `st` of a size-`n` cube, in the order
/// the checks report them.
pub open spec fn validation_issues(st: Seq<Color>, n: int) -> Seq<ValidationIssue> {
    if st.len() != facelet_count(n) {
        seq![
            ValidationIssue::BadFaceletLength {
                got: st.len() as usize,
                expected: facelet_count(n) as usize,
            },
        ]
    } else {
        let e = count_issues_upto(st, n, 6) + piece_issues(st, n, visible_spec(n));
        if e.len() > 0 {
            e
        } else {
            match assembled(st, n) {
                Some(cs) => reach_issues(cs, n),
                None => unknown_issues(st, n),
            }
        }
    }
}

/// A 3×3 sticker array that passes validation assembles into a cube whose
/// corner twists add up to a multiple of 3, whose edge flips add up to a
/// multiple of 2, and whose corner and edge permutations have the same
/// parity.
pub proof fn lemma_valid_three_reachable_invariants(st: Seq<Color>)
    requires
        validation_issues(st, 3).len() == 0,
    ensures
        assembled(st, 3) is Some,
        ({
            let cs = assembled(st, 3)->Some_0;
            &&& corner_sum(cs, 3) % 3 == 0
            &&& edge_sum(cs, 3) % 2 == 0
            &&& perm_sign(kind_perm(cs, 3, true)) == perm_sign(kind_perm(cs, 3, false))
        }),
{
    let e = count_issues_upto(st, 3, 6) + piece_issues(st, 3, visible_spec(3));
    assert(st.len() == facelet_count(3));
    assert(e.len() == 0);
    match assembled(st, 3) {
        Some(cs) => {
            assert(reach_issues(cs, 3).len() == 0);
        },
        None => {
            assert(unknown_issues(st, 3).len() == 1);
        },
    }
}

// ---------------------------------------------------------------------
// Executable checks.
// ---------------------------------------------------------------------

fn are_opposite(a: Color, b: Color) -> (r: bool)
    ensures
        r == opposite_colors(a, b),
{
    match (a, b) {
        (Color::U, Color::D) | (Color::D, Color::U) | (Color::F, Color::B) | (Color::B, Color::F)
        | (Color::R, Color::L) | (Color::L, Color::R) => true,
        _ => false,
    }
}

/// Append a wrong-count problem for each color whose count is not `n²`.
fn push_count_issues(f: &Facelets, errors: &mut Vec<FaceletValidationError>)
    requires
        f.size <= 255,
    ensures
        issues_of(final(errors)@) == issues_of(old(errors)@) + count_issues_upto(
            f.stickers@,
            f.size as int,
            6,
        ),
{
    let n = f.size as usize;
    proof {
        assert(n * n <= 255 * 255) by (nonlinear_arith)
            requires
                n <= 255,
        ;
    }
    let expected_count = n * n;
    let colors = all_colors();
    let ghost base = issues_of(errors@);
    let mut k: usize = 0;
    while k < 6
        invariant
            colors@ == color_list(),
            expected_count == n * n,
            n == f.size,
            k <= 6,
            issues_of(errors@) == base + count_issues_upto(f.stickers@, n as int, k as int),
        decreases 6 - k,
    {
        let color = colors[k];
        let count = count_of(&f.stickers, color);
        let ghost before = errors@;
        if count != expected_count {
            errors.push(
                FaceletValidationError::BadColorCount { color, got: count, expected: expected_count },
            );
            proof {
                assert(issues_of(errors@) =~= issues_of(before).push(errors@.last()@));
            }
        }
        proof {
            assert(issues_of(errors@) =~= base + count_issues_upto(f.stickers@, n as int, k + 1));
        }
        k = k + 1;
    }
}

/// Append the duplicate- and opposite-color problems of one piece.
fn push_pair_issues(colors: &Vec<Color>, pos: IVec3, errors: &mut Vec<FaceletValidationError>)
    ensures
        issues_of(final(errors)@) == issues_of(old(errors)@) + pair_issues_upto(
            colors@,
            pos,
            colors@.len() as int,
        ),
{
    let ghost base = issues_of(errors@);
    let mut i: usize = 0;
    while i < colors.len()
        invariant
            i <= colors@.len(),
            issues_of(errors@) == base + pair_issues_upto(colors@, pos, i as int),
        decreases colors@.len() - i,
    {
        let ghost mid = issues_of(errors@);
        let mut j: usize = i + 1;
        while j < colors.len()
            invariant
                i < colors@.len(),
                i + 1 <= j <= colors@.len(),
                issues_of(errors@) == mid + row_issues(colors@, pos, i as int, j as int),
            decreases colors@.len() - j,
        {
            let ghost before = errors@;
            if colors[i] == colors[j] {
                errors.push(FaceletValidationError::DuplicateColorOnPiece { pos, color: colors[i] });
                proof {
                    assert(issues_of(errors@) =~= issues_of(before).push(errors@.last()@));
                }
            } else if are_opposite(colors[i], colors[j]) {
                errors.push(
                    FaceletValidationError::OppositeColorsOnPiece { pos, a: colors[i], b: colors[j] },
                );
                proof {
                    assert(issues_of(errors@) =~= issues_of(before).push(errors@.last()@));
                }
            }
            proof {
                assert(issues_of(errors@) =~= mid + row_issues(colors@, pos, i as int, j + 1));
            }
            j = j + 1;
        }
        proof {
            assert(issues_of(errors@) =~= base + pair_issues_upto(colors@, pos, i + 1));
        }
        i = i + 1;
    }
}

/// Append the problems of every piece position in `ps`, in order.
fn push_piece_issues(f: &Facelets, ps: &Vec<IVec3>, errors: &mut Vec<FaceletValidationError>)
    requires
        2 <= f.size <= 5,
        f.stickers@.len() == 6 * f.size * f.size,
        forall|k: int| 0 <= k < ps@.len() ==> in_lattice(#[trigger] ps@[k], f.size as int),
    ensures
        issues_of(final(errors)@) == issues_of(old(errors)@) + piece_issues(
            f.stickers@,
            f.size as int,
            ps@,
        ),
{
    let ghost base = issues_of(errors@);
    let mut k: usize = 0;
    while k < ps.len()
        invariant
            2 <= f.size <= 5,
            f.stickers@.len() == 6 * f.size * f.size,
            forall|k: int| 0 <= k < ps@.len() ==> in_lattice(#[trigger] ps@[k], f.size as int),
            k <= ps@.len(),
            issues_of(errors@) == base + piece_issues(f.stickers@, f.size as int, ps@.take(k as int)),
        decreases ps@.len() - k,
    {
        let pos = ps[k];
        let stickers = read_stickers_at(f, pos);
        let colors = sticker_colors(&stickers);
        push_pair_issues(&colors, pos, errors);
        proof {
            assert(ps@.take(k + 1).drop_last() =~= ps@.take(k as int));
            assert(issues_of(errors@) =~= base + piece_issues(f.stickers@, f.size as int, ps@.take(k + 1)));
        }
        k = k + 1;
    }
    proof {
        assert(ps@.take(k as int) =~= ps@);
    }
}

fn corner_at(p: IVec3, n: u8) -> (r: bool)
    ensures
        r == is_corner(p, n as int),
{
    let o = n as i32 - 1;
    (p.x == o || p.x == -o) && (p.y == o || p.y == -o) && (p.z == o || p.z == -o)
}

fn edge_at(p: IVec3, n: u8) -> (r: bool)
    ensures
        r == is_edge(p, n as int),
{
    let o = n as i32 - 1;
    let cx: u8 = if p.x == o || p.x == -o { 1 } else { 0 };
    let cy: u8 = if p.y == o || p.y == -o { 1 } else { 0 };
    let cz: u8 = if p.z == o || p.z == -o { 1 } else { 0 };
    cx + cy + cz == 2
}

/// Edge orientation of a piece against its current slot.
fn kociemba_edge_orient(c: &Cubie) -> (r: u8)
    requires
        c.orientation.0 < 24,
    ensures
        r == slot_edge_orient(*c),
        r < 2,
{
    let h = c.solved_pos;
    let primary = if h.y != 0 {
        if h.y > 0 {
            IVec3 { x: 0, y: 1, z: 0 }
        } else {
            IVec3 { x: 0, y: -1, z: 0 }
        }
    } else if h.z > 0 {
        IVec3 { x: 0, y: 0, z: 1 }
    } else {
        IVec3 { x: 0, y: 0, z: -1 }
    };
    let now = c.orientation.apply(primary);
    let now_axis: u8 = if now.x != 0 {
        0
    } else if now.y != 0 {
        1
    } else {
        2
    };
    let good_axis: u8 = if c.current_pos.y != 0 {
        1
    } else {
        2
    };
    if now_axis == good_axis {
        0
    } else {
        1
    }
}

/// Facts about the pieces of a rebuilt cube that the sums rely on.
pub open spec fn rebuilt_ok(cs: Seq<Cubie>, n: int) -> bool {
    &&& cs.len() <= 125
    &&& forall|k: int|
        0 <= k < cs.len() ==> {
            &&& (#[trigger] cs[k]).orientation.0 < 24
            &&& (is_corner(cs[k].solved_pos, n) ==> position_parity(cs[k].current_pos) != 0)
        }
}

fn corner_sum_of(cs: &Vec<Cubie>, n: u8) -> (r: u32)
    requires
        2 <= n,
        rebuilt_ok(cs@, n as int),
    ensures
        r == corner_sum(cs@, n as int),
{
    let mut sum: u32 = 0;
    let mut k: usize = 0;
    while k < cs.len()
        invariant
            2 <= n,
            rebuilt_ok(cs@, n as int),
            k <= cs@.len(),
            sum == corner_sum(cs@.take(k as int), n as int),
            sum <= 2 * k,
        decreases cs@.len() - k,
    {
        proof {
            assert(cs@.take(k + 1).drop_last() =~= cs@.take(k as int));
        }
        let c = cs[k];
        if corner_at(c.solved_pos, n) {
            let t = corner_twist(&c);
            sum = sum + t as u32;
        }
        k = k + 1;
    }
    proof {
        assert(cs@.take(k as int) =~= cs@);
    }
    sum
}

fn edge_sum_of(cs: &Vec<Cubie>, n: u8) -> (r: u32)
    requires
        rebuilt_ok(cs@, n as int),
    ensures
        r == edge_sum(cs@, n as int),
{
    let mut sum: u32 = 0;
    let mut k: usize = 0;
    while k < cs.len()
        invariant
            rebuilt_ok(cs@, n as int),
            k <= cs@.len(),
            sum == edge_sum(cs@.take(k as int), n as int),
            sum <= k,
        decreases cs@.len() - k,
    {
        proof {
            assert(cs@.take(k + 1).drop_last() =~= cs@.take(k as int));
        }
        let c = cs[k];
        if edge_at(c.solved_pos, n) {
            let t = kociemba_edge_orient(&c);
            sum = sum + t as u32;
        }
        k = k + 1;
    }
    proof {
        assert(cs@.take(k as int) =~= cs@);
    }
    sum
}

/// The pieces of a rebuilt cube satisfy what the sums need.
pub proof fn lemma_rebuilt_ok(st: Seq<Color>, n: int)
    requires
        2 <= n <= 5,
        assembled(st, n) is Some,
    ensures
        rebuilt_ok(assembled(st, n)->Some_0, n),
{
    let homes = visible_spec(n);
    lemma_assign_pieces(st, n, homes);
    let cs = assembled(st, n)->Some_0;
    let full = Seq::new((n * n * n) as nat, |i: int| crate::cube::lattice_pos(n, i));
    full.lemma_filter_len(|p: IVec3| crate::cube::is_outer(p, n));
    assert(n * n * n <= 125) by (nonlinear_arith)
        requires
            2 <= n <= 5,
    ;
    assert forall|k: int| 0 <= k < cs.len() implies (is_corner((#[trigger] cs[k]).solved_pos, n)
        ==> position_parity(cs[k].current_pos) != 0) by {
        if is_corner(cs[k].solved_pos, n) {
            lemma_corner_home_three(homes[k], n);
            lemma_three_stickers_corner(cs[k].current_pos, n);
        }
    }
}

fn kind_homes_of(cs: &Vec<Cubie>, n: u8, corners: bool) -> (r: Vec<IVec3>)
    ensures
        r@ == kind_homes(cs@, n as int, corners),
        r@.len() <= cs@.len(),
{
    let mut out: Vec<IVec3> = Vec::new();
    let mut k: usize = 0;
    while k < cs.len()
        invariant
            k <= cs@.len(),
            out@ == kind_homes(cs@.take(k as int), n as int, corners),
            out@.len() <= k,
        decreases cs@.len() - k,
    {
        proof {
            assert(cs@.take(k + 1).drop_last() =~= cs@.take(k as int));
        }
        let h = cs[k].solved_pos;
        let keep = if corners {
            corner_at(h, n)
        } else {
            edge_at(h, n)
        };
        if keep {
            out.push(h);
        }
        k = k + 1;
    }
    proof {
        assert(cs@.take(k as int) =~= cs@);
    }
    out
}

pub(crate) fn first_piece_index(cs: &Vec<Cubie>, p: IVec3) -> (r: Option<usize>)
    ensures
        match r {
            Some(k) => first_piece_at(cs@, p) == k && k < cs@.len(),
            None => first_piece_at(cs@, p) == -1,
        },
{
    let mut found: Option<usize> = None;
    let mut k: usize = 0;
    while k < cs.len()
        invariant
            k <= cs@.len(),
            match found {
                Some(j) => first_piece_at(cs@.take(k as int), p) == j && j < k,
                None => first_piece_at(cs@.take(k as int), p) == -1,
            },
        decreases cs@.len() - k,
    {
        proof {
            assert(cs@.take(k + 1).drop_last() =~= cs@.take(k as int));
        }
        if found.is_none() && cs[k].current_pos == p {
            found = Some(k);
        }
        k = k + 1;
    }
    proof {
        assert(cs@.take(k as int) =~= cs@);
    }
    found
}

fn first_home_index(hs: &Vec<IVec3>, p: IVec3) -> (r: Option<usize>)
    ensures
        match r {
            Some(k) => first_index_of(hs@, p) == k && k < hs@.len(),
            None => first_index_of(hs@, p) == -1,
        },
{
    let mut found: Option<usize> = None;
    let mut k: usize = 0;
    while k < hs.len()
        invariant
            k <= hs@.len(),
            match found {
                Some(j) => first_index_of(hs@.take(k as int), p) == j && j < k,
                None => first_index_of(hs@.take(k as int), p) == -1,
            },
        decreases hs@.len() - k,
    {
        proof {
            assert(hs@.take(k + 1).drop_last() =~= hs@.take(k as int));
        }
        if found.is_none() && hs[k] == p {
            found = Some(k);
        }
        k = k + 1;
    }
    proof {
        assert(hs@.take(k as int) =~= hs@);
    }
    found
}

/// Sign of the permutation of the pieces of one kind: 1 even, -1 odd.
fn perm_parity_of_kind(cube: &Cube, corners: bool) -> (r: i32)
    ensures
        r == perm_sign(kind_perm(cube.cubies@, cube.size as int, corners)),
{
    let n = cube.size;
    let homes = kind_homes_of(&cube.cubies, n, corners);
    let ghost kp = kind_perm(cube.cubies@, n as int, corners);
    let mut perm: Vec<usize> = Vec::new();
    let mut s: usize = 0;
    while s < homes.len()
        invariant
            homes@ == kind_homes(cube.cubies@, n as int, corners),
            kp == kind_perm(cube.cubies@, n as int, corners),
            s <= homes@.len(),
            perm@.len() == s,
            forall|j: int| 0 <= j < s ==> perm@[j] as int == #[trigger] kp[j],
        decreases homes@.len() - s,
    {
        let entry: usize = match first_piece_index(&cube.cubies, homes[s]) {
            None => 0,
            Some(k) => match first_home_index(&homes, cube.cubies[k].solved_pos) {
                None => 0,
                Some(j) => j,
            },
        };
        perm.push(entry);
        s = s + 1;
    }
    let mut odd = false;
    let mut j: usize = 0;
    while j < perm.len()
        invariant
            perm@.len() == kp.len(),
            forall|j: int| 0 <= j < perm@.len() ==> perm@[j] as int == #[trigger] kp[j],
            j <= perm@.len(),
            odd == (inversions(kp.take(j as int)) % 2 == 1),
        decreases perm@.len() - j,
    {
        let ghost base = inversions(kp.take(j as int));
        let mut i: usize = 0;
        while i < j
            invariant
                perm@.len() == kp.len(),
                forall|j: int| 0 <= j < perm@.len() ==> perm@[j] as int == #[trigger] kp[j],
                j < perm@.len(),
                i <= j,
                base == inversions(kp.take(j as int)),
                odd == ((base + count_greater(kp.take(i as int), kp[j as int])) % 2 == 1),
            decreases j - i,
        {
            proof {
                assert(kp.take(i + 1).drop_last() =~= kp.take(i as int));
                assert(perm@[i as int] as int == kp[i as int]);
                assert(perm@[j as int] as int == kp[j as int]);
            }
            if perm[i] > perm[j] {
                odd = !odd;
            }
            i = i + 1;
        }
        proof {
            assert(kp.take(j + 1).drop_last() =~= kp.take(j as int));
            assert(kp.take(j as int).take(j as int) =~= kp.take(j as int));
        }
        j = j + 1;
    }
    proof {
        assert(kp.take(j as int) =~= kp);
    }
    if odd {
        -1
    } else {
        1
    }
}

fn reach_issue_list(cube: &Cube) -> (r: Vec<FaceletValidationError>)
    requires
        2 <= cube.size <= 5,
        rebuilt_ok(cube.cubies@, cube.size as int),
    ensures
        issues_of(r@) == reach_issues(cube.cubies@, cube.size as int),
{
    let n = cube.size;
    let mut out: Vec<FaceletValidationError> = Vec::new();
    let csum = corner_sum_of(&cube.cubies, n);
    if csum % 3 != 0 {
        out.push(FaceletValidationError::CornerOrientationSum { sum: csum, modulus: csum % 3 });
    }
    let ghost c1 = issues_of(out@);
    proof {
        assert(c1 =~= (if corner_sum(cube.cubies@, n as int) % 3 != 0 {
            seq![ValidationIssue::CornerOrientationSum { sum: csum, modulus: csum % 3 }]
        } else {
            Seq::empty()
        }));
    }
    if n == 3 {
        let esum = edge_sum_of(&cube.cubies, n);
        if esum % 2 != 0 {
            out.push(FaceletValidationError::EdgeOrientationSum { sum: esum, modulus: esum % 2 });
        }
        let ghost c2 = issues_of(out@);
        let cp = perm_parity_of_kind(cube, true);
        let ep = perm_parity_of_kind(cube, false);
        if cp != ep {
            out.push(FaceletValidationError::PermParityMismatch { corner_parity: cp, edge_parity: ep });
        }
        proof {
            assert(issues_of(out@) =~= reach_issues(cube.cubies@, n as int));
        }
    }
    out
}

/// Once some position in a prefix is unknown, it stays the first one.
proof fn lemma_first_unknown_prefix(st: Seq<Color>, n: int, ps: Seq<IVec3>, k: int)
    requires
        0 <= k <= ps.len(),
        first_unknown(st, n, ps.take(k)) is Some,
    ensures
        first_unknown(st, n, ps) == first_unknown(st, n, ps.take(k)),
    decreases ps.len(),
{
    if k == ps.len() {
        assert(ps.take(k) =~= ps);
    } else {
        assert(ps.drop_last().take(k) =~= ps.take(k));
        lemma_first_unknown_prefix(st, n, ps.drop_last(), k);
    }
}

/// The colors of `s` sorted in the order `U D F B R L`.
fn sorted_color_list(s: &Vec<Color>) -> (r: Vec<Color>)
    ensures
        r@ == sorted_colors(s@),
{
    let colors = all_colors();
    let mut out: Vec<Color> = Vec::new();
    let mut k: usize = 0;
    while k < 6
        invariant
            colors@ == color_list(),
            k <= 6,
            out@ == sorted_upto(s@, k as int),
        decreases 6 - k,
    {
        let c = colors[k];
        let m = count_of(s, c);
        let ghost base = out@;
        let mut i: usize = 0;
        while i < m
            invariant
                i <= m,
                m == count_color(s@, c),
                out@ =~= base + Seq::new(i as nat, |j: int| c),
            decreases m - i,
        {
            out.push(c);
            i = i + 1;
        }
        proof {
            assert(out@ =~= sorted_upto(s@, k + 1));
        }
        k = k + 1;
    }
    out
}

/// Some piece of a solved cube carries the colors `have`.
fn any_canonical(ps: &Vec<IVec3>, n: u8, have: &Vec<Color>) -> (r: bool)
    ensures
        r == (exists|k: int| 0 <= k < ps@.len() && same_colors(home_colors(#[trigger] ps@[k], n as int), have@)),
{
    let mut k: usize = 0;
    while k < ps.len()
        invariant
            k <= ps@.len(),
            forall|j: int| 0 <= j < k ==> !same_colors(home_colors(#[trigger] ps@[j], n as int), have@),
        decreases ps@.len() - k,
    {
        let exposed = exposed_directions(ps[k], n);
        let canonical = colors_for_dirs(&exposed, Ghost(ps@[k as int]), Ghost(n as int));
        if same_color_counts(&canonical, have) {
            return true;
        }
        k = k + 1;
    }
    false
}

fn unknown_issue_list(f: &Facelets, ps: &Vec<IVec3>) -> (r: Vec<FaceletValidationError>)
    requires
        2 <= f.size <= 5,
        f.stickers@.len() == 6 * f.size * f.size,
        ps@ == visible_spec(f.size as int),
        forall|k: int| 0 <= k < ps@.len() ==> in_lattice(#[trigger] ps@[k], f.size as int),
    ensures
        issues_of(r@) == unknown_issues(f.stickers@, f.size as int),
{
    let n = f.size;
    let ghost st = f.stickers@;
    let mut k: usize = 0;
    while k < ps.len()
        invariant
            2 <= f.size <= 5,
            n == f.size,
            st == f.stickers@,
            f.stickers@.len() == 6 * f.size * f.size,
            ps@ == visible_spec(n as int),
            forall|k: int| 0 <= k < ps@.len() ==> in_lattice(#[trigger] ps@[k], f.size as int),
            k <= ps@.len(),
            first_unknown(st, n as int, ps@.take(k as int)) is None,
        decreases ps@.len() - k,
    {
        let pos = ps[k];
        let stickers = read_stickers_at(f, pos);
        let have = sticker_colors(&stickers);
        proof {
            assert(ps@.take(k + 1).drop_last() =~= ps@.take(k as int));
        }
        if !any_canonical(ps, n, &have) {
            let colors = sorted_color_list(&have);
            let mut out: Vec<FaceletValidationError> = Vec::new();
            out.push(FaceletValidationError::UnknownCubieAt { pos, colors });
            proof {
                lemma_first_unknown_prefix(st, n as int, ps@, k + 1);
                assert(issues_of(out@) =~= unknown_issues(st, n as int));
            }
            return out;
        }
        k = k + 1;
    }
    proof {
        assert(ps@.take(k as int) =~= ps@);
    }
    let mut out: Vec<FaceletValidationError> = Vec::new();
    out.push(FaceletValidationError::NotReachable);
    proof {
        assert(issues_of(out@) =~= unknown_issues(st, n as int));
    }
    out
}

/// Home positions of the pieces of a solved cube, in order.
fn piece_positions_for_size(size: u8) -> (r: Vec<IVec3>)
    requires
        2 <= size <= 5,
    ensures
        r@ == visible_spec(size as int),
        forall|k: int| 0 <= k < r@.len() ==> in_lattice(#[trigger] r@[k], size as int),
{
    let solved = match Cube::solved(size) {
        Ok(c) => c,
        Err(_) => {
            return Vec::new();
        },
    };
    let ghost vis = visible_spec(size as int);
    let mut out: Vec<IVec3> = Vec::new();
    let mut k: usize = 0;
    while k < solved.cubies.len()
        invariant
            solved.cubies@ == vis.map_values(|p: IVec3| crate::cube::solved_cubie(p)),
            solved.wf(),
            solved.size == size,
            k <= vis.len(),
            out@ =~= vis.take(k as int),
        decreases vis.len() - k,
    {
        proof {
            assert(solved.cubies@[k as int].solved_pos == vis[k as int]);
        }
        out.push(solved.cubies[k].solved_pos);
        k = k + 1;
    }
    proof {
        assert(vis.take(k as int) =~= vis);
        assert forall|k: int| 0 <= k < out@.len() implies in_lattice(#[trigger] out@[k], size as int) by {
            assert(solved.cubies@[k].solved_pos == out@[k]);
            assert(solved.cubies@[k].orientation.0 < 24);
            assert(on_shell(solved.cubies@[k].solved_pos, size as int));
        }
    }
    out
}

impl Facelets {
    /// Run the full sticker-input validation pipeline, returning every
    /// detected problem. When it returns `Ok`, [`Facelets::try_into_cube`]
    /// succeeds.
    pub fn validate(&self) -> (r: Result<(), Vec<FaceletValidationError>>)
        requires
            self.stickers@.len() == facelet_count(self.size as int) ==> 2 <= self.size <= 5,
        ensures
            match r {
                Ok(()) => validation_issues(self.stickers@, self.size as int).len() == 0,
                Err(es) => es@.len() > 0 && issues_of(es@) == validation_issues(
                    self.stickers@,
                    self.size as int,
                ),
            },
    {
        let ghost st = self.stickers@;
        let ghost nn = self.size as int;
        let mut errors: Vec<FaceletValidationError> = Vec::new();
        let n = self.size as usize;
        proof {
            assert(n * n <= 255 * 255) by (nonlinear_arith)
                requires
                    n <= 255,
            ;
        }
        let expected_len = 6 * (n * n);
        proof {
            assert(expected_len == facelet_count(nn)) by (nonlinear_arith)
                requires
                    expected_len == 6 * (n * n),
                    n == nn,
            ;
        }
        if self.stickers.len() != expected_len {
            errors.push(
                FaceletValidationError::BadFaceletLength { got: self.stickers.len(), expected: expected_len },
            );
            proof {
                assert(issues_of(errors@) =~= validation_issues(st, nn));
            }
            return Err(errors);
        }
        push_count_issues(self, &mut errors);
        let positions = piece_positions_for_size(self.size);
        push_piece_issues(self, &positions, &mut errors);
        proof {
            assert(issues_of(errors@) =~= count_issues_upto(st, nn, 6) + piece_issues(st, nn, visible_spec(nn)));
        }
        if errors.len() == 0 {
            match self.try_into_cube() {
                Ok(cube) => {
                    proof {
                        lemma_rebuilt_ok(st, nn);
                    }
                    errors = reach_issue_list(&cube);
                },
                Err(CubeError::InvalidFaceletState { reason: _ }) => {
                    errors = unknown_issue_list(self, &positions);
                },
                Err(_) => {},
            }
        }
        proof {
            assert(issues_of(errors@) =~= validation_issues(st, nn));
        }
        if errors.len() == 0 {
            Ok(())
        } else {
            Err(errors)
        }
    }
}

/// When validation reports no problem, the sticker array has the right
/// length for a supported size and every piece can be placed, so
/// [`Facelets::try_into_cube`] returns `Ok`.
pub proof fn lemma_valid_facelets_assemble(st: Seq<Color>, n: int)
    requires
        st.len() == facelet_count(n) ==> 2 <= n <= 5,
        validation_issues(st, n).len() == 0,
    ensures
        st.len() == facelet_count(n),
        2 <= n <= 5,
        assembled(st, n) is Some,
{
}

} // verus!
