//! Compact 3×3 state: corner and edge permutations with orientations.

use vstd::prelude::*;
use crate::cube::{Cube, Cubie, corner_twist, corner_twist_spec, edge_orient, edge_orient_spec, on_shell, occupied};
use crate::validation::{first_piece_at, first_piece_index};
use crate::vec3::{IVec3, ivec};
use crate::two::{lemma_first_piece_occupied, lemma_first_piece_props};

verus! {

/// First edge slot of the middle (E) slice.
pub const E_SLICE_FIRST: usize = 8;

/// Corner home positions in Kociemba order: URF, UFL, ULB, UBR, DFR, DLF,
/// DBL, DRB.
pub open spec fn corner_home(i: int) -> IVec3 {
    if i == 0 {
        ivec(2, 2, 2)
    } else if i == 1 {
        ivec(-2, 2, 2)
    } else if i == 2 {
        ivec(-2, 2, -2)
    } else if i == 3 {
        ivec(2, 2, -2)
    } else if i == 4 {
        ivec(2, -2, 2)
    } else if i == 5 {
        ivec(-2, -2, 2)
    } else if i == 6 {
        ivec(-2, -2, -2)
    } else {
        ivec(2, -2, -2)
    }
}

/// Edge home positions in Kociemba order: UR, UF, UL, UB, DR, DF, DL, DB,
/// then the middle-slice edges FR, FL, BL, BR.
pub open spec fn edge_home(i: int) -> IVec3 {
    if i == 0 {
        ivec(2, 2, 0)
    } else if i == 1 {
        ivec(0, 2, 2)
    } else if i == 2 {
        ivec(-2, 2, 0)
    } else if i == 3 {
        ivec(0, 2, -2)
    } else if i == 4 {
        ivec(2, -2, 0)
    } else if i == 5 {
        ivec(0, -2, 2)
    } else if i == 6 {
        ivec(-2, -2, 0)
    } else if i == 7 {
        ivec(0, -2, -2)
    } else if i == 8 {
        ivec(2, 0, 2)
    } else if i == 9 {
        ivec(-2, 0, 2)
    } else if i == 10 {
        ivec(-2, 0, -2)
    } else {
        ivec(2, 0, -2)
    }
}

/// Corner home position `i`.
pub fn corner_home_at(i: usize) -> (r: IVec3)
    requires
        i < 8,
    ensures
        r == corner_home(i as int),
{
    let (x, y, z): (i32, i32, i32) = if i == 0 {
        (2, 2, 2)
    } else if i == 1 {
        (-2, 2, 2)
    } else if i == 2 {
        (-2, 2, -2)
    } else if i == 3 {
        (2, 2, -2)
    } else if i == 4 {
        (2, -2, 2)
    } else if i == 5 {
        (-2, -2, 2)
    } else if i == 6 {
        (-2, -2, -2)
    } else {
        (2, -2, -2)
    };
    IVec3 { x, y, z }
}

/// Edge home position `i`.
pub fn edge_home_at(i: usize) -> (r: IVec3)
    requires
        i < 12,
    ensures
        r == edge_home(i as int),
{
    let (x, y, z): (i32, i32, i32) = if i == 0 {
        (2, 2, 0)
    } else if i == 1 {
        (0, 2, 2)
    } else if i == 2 {
        (-2, 2, 0)
    } else if i == 3 {
        (0, 2, -2)
    } else if i == 4 {
        (2, -2, 0)
    } else if i == 5 {
        (0, -2, 2)
    } else if i == 6 {
        (-2, -2, 0)
    } else if i == 7 {
        (0, -2, -2)
    } else if i == 8 {
        (2, 0, 2)
    } else if i == 9 {
        (-2, 0, 2)
    } else if i == 10 {
        (-2, 0, -2)
    } else {
        (2, 0, -2)
    };
    IVec3 { x, y, z }
}

/// Index of `p` among the corner homes, or -1.
pub open spec fn corner_index(p: IVec3) -> int {
    if p == corner_home(0) {
        0
    } else if p == corner_home(1) {
        1
    } else if p == corner_home(2) {
        2
    } else if p == corner_home(3) {
        3
    } else if p == corner_home(4) {
        4
    } else if p == corner_home(5) {
        5
    } else if p == corner_home(6) {
        6
    } else if p == corner_home(7) {
        7
    } else {
        -1
    }
}

/// Index of `p` among the edge homes, or -1.
pub open spec fn edge_index(p: IVec3) -> int {
    if p == edge_home(0) {
        0
    } else if p == edge_home(1) {
        1
    } else if p == edge_home(2) {
        2
    } else if p == edge_home(3) {
        3
    } else if p == edge_home(4) {
        4
    } else if p == edge_home(5) {
        5
    } else if p == edge_home(6) {
        6
    } else if p == edge_home(7) {
        7
    } else if p == edge_home(8) {
        8
    } else if p == edge_home(9) {
        9
    } else if p == edge_home(10) {
        10
    } else if p == edge_home(11) {
        11
    } else {
        -1
    }
}

#[derive(Debug, Clone, Copy, PartialEq, Eq, Hash)]
pub struct CornerState {
    /// `perm[slot]` is the home index of the corner at `slot`.
    pub perm: [u8; 8],
    /// Parity-aware corner twist, `0..3`.
    pub orient: [u8; 8],
}

#[derive(Debug, Clone, Copy, PartialEq, Eq, Hash)]
pub struct EdgeState {
    /// `perm[slot]` is the home index of the edge at `slot`.
    pub perm: [u8; 12],
    /// Edge orientation: 0 good, 1 flipped.
    pub orient: [u8; 12],
    /// Full rotation index of each edge, from which `orient` is read.
    pub rot: [u8; 12],
}

#[derive(Debug, Clone, Copy, PartialEq, Eq, Hash)]
pub struct State3x3 {
    pub corners: CornerState,
    pub edges: EdgeState,
}

pub open spec fn iota(n: int) -> Seq<u8> {
    Seq::new(n as nat, |i: int| i as u8)
}

pub open spec fn zero_seq(n: int) -> Seq<u8> {
    Seq::new(n as nat, |i: int| 0u8)
}

pub open spec fn corners_solved(c: CornerState) -> bool {
    c.perm@ == iota(8) && c.orient@ == zero_seq(8)
}

pub open spec fn edges_solved(e: EdgeState) -> bool {
    e.perm@ == iota(12) && e.orient@ == zero_seq(12) && e.rot@ == zero_seq(12)
}

pub open spec fn is_solved_spec(s: State3x3) -> bool {
    corners_solved(s.corners) && edges_solved(s.edges)
}

/// In `G1`: no corner twisted, no edge flipped, and the middle-slice
/// slots `0..8` hold no middle-slice edge.
pub open spec fn in_g1(s: State3x3) -> bool {
    &&& forall|i: int| 0 <= i < 8 ==> s.corners.orient@[i] == 0
    &&& forall|i: int| 0 <= i < 12 ==> s.edges.orient@[i] == 0
    &&& forall|i: int| 0 <= i < 8 ==> s.edges.perm@[i] < 8
}

impl CornerState {
    pub fn solved() -> (r: Self)
        ensures
            corners_solved(r),
    {
        let r = Self { perm: [0, 1, 2, 3, 4, 5, 6, 7], orient: [0; 8] };
        proof {
            assert(r.perm@ =~= iota(8));
            assert(r.orient@ =~= zero_seq(8));
        }
        r
    }
}

impl EdgeState {
    pub fn solved() -> (r: Self)
        ensures
            edges_solved(r),
    {
        let r = Self { perm: [0, 1, 2, 3, 4, 5, 6, 7, 8, 9, 10, 11], orient: [0; 12], rot: [0; 12] };
        proof {
            assert(r.perm@ =~= iota(12));
            assert(r.orient@ =~= zero_seq(12));
            assert(r.rot@ =~= zero_seq(12));
        }
        r
    }
}

fn all_zero(a: &[u8]) -> (r: bool)
    ensures
        r == (forall|i: int| 0 <= i < a@.len() ==> a@[i] == 0),
{
    let mut i: usize = 0;
    while i < a.len()
        invariant
            i <= a@.len(),
            forall|j: int| 0 <= j < i ==> a@[j] == 0,
        decreases a@.len() - i,
    {
        if a[i] != 0 {
            return false;
        }
        i = i + 1;
    }
    true
}

fn is_iota(a: &[u8]) -> (r: bool)
    requires
        a@.len() <= 256,
    ensures
        r == (a@ == iota(a@.len() as int)),
{
    let mut i: usize = 0;
    while i < a.len()
        invariant
            i <= a@.len(),
            a@.len() <= 256,
            forall|j: int| 0 <= j < i ==> a@[j] == j,
        decreases a@.len() - i,
    {
        if a[i] as usize != i {
            proof {
                assert(a@[i as int] != iota(a@.len() as int)[i as int]);
            }
            return false;
        }
        i = i + 1;
    }
    proof {
        assert(a@ =~= iota(a@.len() as int));
    }
    true
}

impl State3x3 {
    pub fn solved() -> (r: Self)
        ensures
            is_solved_spec(r),
    {
        Self { corners: CornerState::solved(), edges: EdgeState::solved() }
    }

    pub fn is_solved(&self) -> (r: bool)
        ensures
            r == is_solved_spec(*self),
    {
        let a = is_iota(&self.corners.perm) && all_zero(&self.corners.orient);
        let b = is_iota(&self.edges.perm) && all_zero(&self.edges.orient) && all_zero(&self.edges.rot);
        let r = a && b;
        proof {
            if r {
                assert(self.corners.orient@ =~= zero_seq(8));
                assert(self.edges.orient@ =~= zero_seq(12));
                assert(self.edges.rot@ =~= zero_seq(12));
            }
        }
        r
    }

    /// True iff the state is in `G1`.
    pub fn is_in_g1(&self) -> (r: bool)
        ensures
            r == in_g1(*self),
    {
        if !all_zero(&self.corners.orient) {
            return false;
        }
        if !all_zero(&self.edges.orient) {
            return false;
        }
        let mut slot: usize = 0;
        while slot < E_SLICE_FIRST
            invariant
                slot <= 8,
                forall|i: int| 0 <= i < slot ==> self.edges.perm@[i] < 8,
            decreases 8 - slot,
        {
            if self.edges.perm[slot] as usize >= E_SLICE_FIRST {
                return false;
            }
            slot = slot + 1;
        }
        true
    }
}

// ---------------------------------------------------------------------
// Reading a cube.
// ---------------------------------------------------------------------

/// Every piece sits at a position of its own kind: corners at corner
/// homes, edges at edge homes.
pub open spec fn kinds_match(cs: Seq<Cubie>) -> bool {
    forall|i: int|
        0 <= i < cs.len() ==> (corner_index((#[trigger] cs[i]).current_pos) >= 0) == (corner_index(
            cs[i].solved_pos,
        ) >= 0) && (edge_index(cs[i].current_pos) >= 0) == (edge_index(cs[i].solved_pos) >= 0)
}

pub open spec fn corner_piece(cs: Seq<Cubie>, slot: int) -> Cubie {
    cs[first_piece_at(cs, corner_home(slot))]
}

pub open spec fn edge_piece(cs: Seq<Cubie>, slot: int) -> Cubie {
    cs[first_piece_at(cs, edge_home(slot))]
}

/// The corners of a cube: home index and twist of the piece in each slot.
pub open spec fn cube_corners(cs: Seq<Cubie>) -> (Seq<u8>, Seq<u8>) {
    (
        Seq::new(8, |s: int| corner_index(corner_piece(cs, s).solved_pos) as u8),
        Seq::new(8, |s: int| corner_twist_spec(corner_piece(cs, s))),
    )
}

/// The edges of a cube: home index, flip and rotation of the piece in
/// each slot.
pub open spec fn cube_edges(cs: Seq<Cubie>) -> (Seq<u8>, Seq<u8>, Seq<u8>) {
    (
        Seq::new(12, |s: int| edge_index(edge_piece(cs, s).solved_pos) as u8),
        Seq::new(12, |s: int| edge_orient_spec(edge_piece(cs, s))),
        Seq::new(12, |s: int| edge_piece(cs, s).orientation.0),
    )
}

fn corner_index_of(p: IVec3) -> (r: Option<usize>)
    ensures
        match r {
            Some(i) => i < 8 && corner_index(p) == i,
            None => corner_index(p) == -1,
        },
{
    let mut i: usize = 0;
    while i < 8
        invariant
            i <= 8,
            forall|j: int| 0 <= j < i ==> corner_home(j) != p,
        decreases 8 - i,
    {
        if corner_home_at(i) == p {
            return Some(i);
        }
        i = i + 1;
    }
    None
}

fn edge_index_of(p: IVec3) -> (r: Option<usize>)
    ensures
        match r {
            Some(i) => i < 12 && edge_index(p) == i,
            None => edge_index(p) == -1,
        },
{
    let mut i: usize = 0;
    while i < 12
        invariant
            i <= 12,
            forall|j: int| 0 <= j < i ==> edge_home(j) != p,
        decreases 12 - i,
    {
        if edge_home_at(i) == p {
            return Some(i);
        }
        i = i + 1;
    }
    None
}

pub(crate) proof fn lemma_homes_on_shell(i: int)
    ensures
        0 <= i < 8 ==> on_shell(corner_home(i), 3),
        0 <= i < 12 ==> on_shell(edge_home(i), 3),
{
}

impl State3x3 {
    /// Read the state of a 3×3 cube.
    pub fn from_cube(cube: &Cube) -> (r: Self)
        requires
            cube.size == 3,
            cube.wf(),
            kinds_match(cube.cubies@),
        ensures
            (r.corners.perm@, r.corners.orient@) == cube_corners(cube.cubies@),
            (r.edges.perm@, r.edges.orient@, r.edges.rot@) == cube_edges(cube.cubies@),
    {
        let ghost cs = cube.cubies@;
        let mut corners = CornerState::solved();
        let mut slot: usize = 0;
        while slot < 8
            invariant
                cube.size == 3,
                cube.wf(),
                cs == cube.cubies@,
                kinds_match(cs),
                slot <= 8,
                forall|j: int| 0 <= j < slot ==> corners.perm@[j] == cube_corners(cs).0[j] && corners.orient@[j]
                    == cube_corners(cs).1[j],
            decreases 8 - slot,
        {
            let home_pos = corner_home_at(slot);
            proof {
                lemma_homes_on_shell(slot as int);
                lemma_first_piece_occupied(cs, home_pos);
                lemma_first_piece_props(cs, home_pos);
            }
            let k = match first_piece_index(&cube.cubies, home_pos) {
                Some(k) => k,
                None => {
                    proof {
                        assert(false);
                    }
                    0
                },
            };
            let cubie = cube.cubies[k];
            proof {
                assert(cs[k as int].orientation.0 < 24);
            }
            let home_idx = match corner_index_of(cubie.solved_pos) {
                Some(i) => i,
                None => {
                    proof {
                        assert(false);
                    }
                    0
                },
            };
            corners.perm[slot] = home_idx as u8;
            corners.orient[slot] = corner_twist(&cubie);
            slot = slot + 1;
        }
        let mut edges = EdgeState::solved();
        let mut slot: usize = 0;
        while slot < 12
            invariant
                cube.size == 3,
                cube.wf(),
                cs == cube.cubies@,
                kinds_match(cs),
                slot <= 12,
                forall|j: int| 0 <= j < slot ==> edges.perm@[j] == cube_edges(cs).0[j] && edges.orient@[j]
                    == cube_edges(cs).1[j] && edges.rot@[j] == cube_edges(cs).2[j],
            decreases 12 - slot,
        {
            let home_pos = edge_home_at(slot);
            proof {
                lemma_homes_on_shell(slot as int);
                lemma_first_piece_occupied(cs, home_pos);
                lemma_first_piece_props(cs, home_pos);
            }
            let k = match first_piece_index(&cube.cubies, home_pos) {
                Some(k) => k,
                None => {
                    proof {
                        assert(false);
                    }
                    0
                },
            };
            let cubie = cube.cubies[k];
            proof {
                assert(cs[k as int].orientation.0 < 24);
            }
            let home_idx = match edge_index_of(cubie.solved_pos) {
                Some(i) => i,
                None => {
                    proof {
                        assert(false);
                    }
                    0
                },
            };
            edges.perm[slot] = home_idx as u8;
            edges.orient[slot] = edge_orient(&cubie);
            edges.rot[slot] = cubie.orientation.0;
            slot = slot + 1;
        }
        proof {
            assert(corners.perm@ =~= cube_corners(cs).0);
            assert(corners.orient@ =~= cube_corners(cs).1);
            assert(edges.perm@ =~= cube_edges(cs).0);
            assert(edges.orient@ =~= cube_edges(cs).1);
            assert(edges.rot@ =~= cube_edges(cs).2);
        }
        Self { corners, edges }
    }
}

/// On a well-formed 3×3 whose pieces sit at positions of their own kind,
/// the piece at a corner home is a corner with a valid rotation, and the
/// piece at an edge home is an edge.
pub proof fn lemma_piece_at_home(cs: Seq<Cubie>, home: IVec3)
    requires
        crate::cube::cubies_wf(cs, 3),
        kinds_match(cs),
        on_shell(home, 3),
    ensures
        0 <= first_piece_at(cs, home) < cs.len(),
        cs[first_piece_at(cs, home)].current_pos == home,
        cs[first_piece_at(cs, home)].orientation.0 < 24,
        corner_index(home) >= 0 ==> 0 <= corner_index(cs[first_piece_at(cs, home)].solved_pos) < 8,
        edge_index(home) >= 0 ==> 0 <= edge_index(cs[first_piece_at(cs, home)].solved_pos) < 12,
        corner_index(home) >= 0 ==> corner_twist_spec(cs[first_piece_at(cs, home)]) < 3,
{
    lemma_first_piece_occupied(cs, home);
    lemma_first_piece_props(cs, home);
    let k = first_piece_at(cs, home);
    assert(cs[k].orientation.0 < 24);
    assert(kinds_match(cs));
    assert((corner_index(cs[k].current_pos) >= 0) == (corner_index(cs[k].solved_pos) >= 0));
}

/// The state read from a well-formed 3×3 has valid twists, home
/// indices and rotations.
pub proof fn lemma_cube_state_ok(cs: Seq<Cubie>)
    requires
        crate::cube::cubies_wf(cs, 3),
        kinds_match(cs),
    ensures
        forall|i: int| 0 <= i < 8 ==> cube_corners(cs).1[i] < 3,
        forall|i: int| 0 <= i < 12 ==> cube_edges(cs).0[i] < 12 && cube_edges(cs).2[i] < 24,
{
    assert forall|i: int| 0 <= i < 8 implies cube_corners(cs).1[i] < 3 by {
        lemma_homes_on_shell(i);
        lemma_piece_at_home(cs, corner_home(i));
    }
    assert forall|i: int| 0 <= i < 12 implies cube_edges(cs).0[i] < 12 && cube_edges(cs).2[i] < 24 by {
        lemma_homes_on_shell(i);
        lemma_piece_at_home(cs, edge_home(i));
    }
}


/// On a 3×3, a lattice position is a corner home exactly when it shows
/// three stickers, and an edge home exactly when it shows two.
proof fn lemma_kind_by_stickers(p: IVec3)
    requires
        crate::cube::in_lattice(p, 3),
    ensures
        (corner_index(p) >= 0) == (crate::assembly::exposed_dirs(p, 3).len() == 3),
        (edge_index(p) >= 0) == (crate::assembly::exposed_dirs(p, 3).len() == 2),
{
    assert(p.x == -2 || p.x == 0 || p.x == 2);
    assert(p.y == -2 || p.y == 0 || p.y == 2);
    assert(p.z == -2 || p.z == 0 || p.z == 2);
}

/// Pieces rebuilt from a 3×3 sticker array sit at positions of their own
/// kind: corners at corners, edges at edges.
pub proof fn lemma_assembled_kinds(st: Seq<crate::facelets::Color>)
    requires
        crate::assembly::assembled(st, 3) is Some,
    ensures
        kinds_match(crate::assembly::assembled(st, 3)->Some_0),
{
    let vis = crate::cube::visible_spec(3);
    let cs = crate::assembly::assembled(st, 3)->Some_0;
    crate::assembly::lemma_assign_pieces(st, 3, vis);
    crate::assembly::lemma_assembled_wf(st, 3);
    assert forall|i: int| 0 <= i < cs.len() implies (corner_index((#[trigger] cs[i]).current_pos) >= 0) == (
    corner_index(cs[i].solved_pos) >= 0) && (edge_index(cs[i].current_pos) >= 0) == (edge_index(
        cs[i].solved_pos,
    ) >= 0) by {
        assert(cs[i].orientation.0 < 24);
        lemma_kind_by_stickers(cs[i].current_pos);
        lemma_kind_by_stickers(cs[i].solved_pos);
    }
}

} // verus!
