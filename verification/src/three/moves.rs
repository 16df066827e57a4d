//! Move alphabets of the two-phase solver and their slot-level effects,
//! derived by simulating each move on a solved cube.

use vstd::prelude::*;
use crate::cube::{Cube, Cubie, cubies_wf, step_all, step_cubie, visible_spec, solved_cubie, lemma_step_keeps_wf, on_shell, lattice_coord};
use crate::moves::{Face, Move, Turn, move_rotation, lemma_move_rotation};
use crate::orient::{apply_rot, rot_of, lemma_rot_is_rot};
use crate::three::state::{State3x3, corner_index, edge_index, kinds_match, cube_corners, cube_edges};
use crate::vec3::{IVec3, bounded};

verus! {

/// Phase-1 move `i`: faces `U D R L F B`, each with `Cw Half Ccw`.
pub open spec fn phase1_move(i: int) -> (Face, Turn) {
    let face = if i / 3 == 0 {
        Face::U
    } else if i / 3 == 1 {
        Face::D
    } else if i / 3 == 2 {
        Face::R
    } else if i / 3 == 3 {
        Face::L
    } else if i / 3 == 4 {
        Face::F
    } else {
        Face::B
    };
    let turn = if i % 3 == 0 {
        Turn::Cw
    } else if i % 3 == 1 {
        Turn::Half
    } else {
        Turn::Ccw
    };
    (face, turn)
}

/// Phase-1 index of phase-2 move `i`: `U U2 U' D D2 D' R2 L2 F2 B2`.
pub open spec fn phase2_to_phase1_spec(i: int) -> int {
    if i < 6 {
        i
    } else if i == 6 {
        7
    } else if i == 7 {
        10
    } else if i == 8 {
        13
    } else {
        16
    }
}

pub const N_PHASE1_MOVES: usize = 18;

pub const N_PHASE2_MOVES: usize = 10;

/// Phase-1 move `i`.
pub fn phase1_move_at(i: usize) -> (r: (Face, Turn))
    requires
        i < 18,
    ensures
        r == phase1_move(i as int),
{
    let face = if i / 3 == 0 {
        Face::U
    } else if i / 3 == 1 {
        Face::D
    } else if i / 3 == 2 {
        Face::R
    } else if i / 3 == 3 {
        Face::L
    } else if i / 3 == 4 {
        Face::F
    } else {
        Face::B
    };
    let turn = if i % 3 == 0 {
        Turn::Cw
    } else if i % 3 == 1 {
        Turn::Half
    } else {
        Turn::Ccw
    };
    (face, turn)
}

/// Phase-1 index of phase-2 move `i`.
pub fn phase2_to_phase1(i: usize) -> (r: usize)
    requires
        i < 10,
    ensures
        r == phase2_to_phase1_spec(i as int),
        r < 18,
{
    if i < 6 {
        i
    } else if i == 6 {
        7
    } else if i == 7 {
        10
    } else if i == 8 {
        13
    } else {
        16
    }
}

/// The `idx`-th phase-2 move.
pub fn phase2_to_move(idx: usize) -> (r: (Face, Turn))
    requires
        idx < 10,
    ensures
        r == phase1_move(phase2_to_phase1_spec(idx as int)),
{
    phase1_move_at(phase2_to_phase1(idx))
}

/// Slot-level effect of a move on the corners.
#[derive(Debug, Clone, Copy)]
pub struct CornerMoveOp {
    /// `perm[s]` = source slot of the piece that lands at `s`.
    pub perm: [u8; 8],
    /// Twist added to the moving piece (mod 3).
    pub orient: [u8; 8],
}

/// Slot-level effect of a move on the edges.
#[derive(Debug, Clone, Copy)]
pub struct EdgeMoveOp {
    /// `perm[slot]` = source slot of the piece that lands at `slot`.
    pub perm: [u8; 12],
    /// Rotation index the move applies to the pieces it turns.
    pub move_rot: u8,
    /// Slots whose pieces the move turns.
    pub in_cycle: [bool; 12],
}

pub open spec fn is_corner_pos(p: IVec3) -> bool {
    (p.x == 2 || p.x == -2) && (p.y == 2 || p.y == -2) && (p.z == 2 || p.z == -2)
}

pub open spec fn zero_count(p: IVec3) -> int {
    (if p.x == 0 { 1int } else { 0int }) + (if p.y == 0 { 1int } else { 0int }) + (if p.z == 0 { 1int } else { 0int })
}

pub open spec fn is_edge_pos(p: IVec3) -> bool {
    (p.x == 2 || p.x == -2 || p.x == 0) && (p.y == 2 || p.y == -2 || p.y == 0) && (p.z == 2 || p.z == -2 || p.z == 0)
        && zero_count(p) == 1
}

pub(crate) proof fn lemma_kind_shapes(p: IVec3)
    ensures
        (corner_index(p) >= 0) == is_corner_pos(p),
        (edge_index(p) >= 0) == is_edge_pos(p),
{
}

/// Rotations keep corner positions corners and edge positions edges.
pub proof fn lemma_rot_keeps_kind(r: int, p: IVec3)
    requires
        0 <= r < 24,
        bounded(p, 2),
    ensures
        (corner_index(apply_rot(rot_of(r), p)) >= 0) == (corner_index(p) >= 0),
        (edge_index(apply_rot(rot_of(r), p)) >= 0) == (edge_index(p) >= 0),
{
    lemma_rot_is_rot(r);
    lemma_kind_shapes(p);
    lemma_kind_shapes(apply_rot(rot_of(r), p));
}

/// A move keeps every piece at a position of its own kind.
pub proof fn lemma_step_keeps_kinds(cs: Seq<Cubie>, m: Move)
    requires
        kinds_match(cs),
        forall|i: int| 0 <= i < cs.len() ==> bounded(#[trigger] cs[i].current_pos, 2),
    ensures
        kinds_match(step_all(cs, m, 3)),
{
    lemma_move_rotation(m);
    let out = step_all(cs, m, 3);
    assert forall|i: int| 0 <= i < out.len() implies (corner_index((#[trigger] out[i]).current_pos) >= 0) == (corner_index(
            out[i].solved_pos,
        ) >= 0) && (edge_index(out[i].current_pos) >= 0) == (edge_index(out[i].solved_pos) >= 0) by {
        assert(bounded(cs[i].current_pos, 2));
        lemma_rot_keeps_kind(move_rotation(m), cs[i].current_pos);
    }
}

pub open spec fn solved_three() -> Seq<Cubie> {
    visible_spec(3).map_values(|p: IVec3| solved_cubie(p))
}

/// Phase-1 move `i` as a single-layer move.
pub open spec fn phase1_face_move(i: int) -> Move {
    Move { face: phase1_move(i).0, turn: phase1_move(i).1, depth: 1, wide: false }
}

/// Pieces of a solved 3×3 after phase-1 move `i`.
pub open spec fn after_move(i: int) -> Seq<Cubie> {
    step_all(solved_three(), phase1_face_move(i), 3)
}

pub open spec fn corner_op_ok(op: CornerMoveOp, i: int) -> bool {
    (op.perm@, op.orient@) == cube_corners(after_move(i))
}

pub open spec fn edge_op_ok(op: EdgeMoveOp, i: int) -> bool {
    &&& op.perm@ == cube_edges(after_move(i)).0
    &&& op.move_rot == move_rotation(phase1_face_move(i))
    &&& forall|s: int| 0 <= s < 12 ==> op.in_cycle@[s] == (op.perm@[s] != s)
}

/// A solved 3×3 after one face move can be read as a state.
proof fn lemma_after_move_readable(i: int)
    ensures
        cubies_wf(after_move(i), 3),
        kinds_match(after_move(i)),
{
    let s0 = solved_three();
    crate::cube::lemma_solved_wf(3);
    lemma_step_keeps_wf(s0, phase1_face_move(i), 3);
    assert forall|k: int| 0 <= k < s0.len() implies bounded(#[trigger] s0[k].current_pos, 2) by {
        assert(s0[k].orientation.0 < 24);
        assert(on_shell(s0[k].current_pos, 3));
    }
    assert(kinds_match(s0));
    lemma_step_keeps_kinds(s0, phase1_face_move(i));
}

fn edge_op_from(m: Move, s: &State3x3) -> (r: EdgeMoveOp)
    ensures
        r.perm == s.edges.perm,
        r.move_rot == move_rotation(m),
        forall|k: int| 0 <= k < 12 ==> r.in_cycle@[k] == (s.edges.perm@[k] != k),
{
    let move_rot = m.rotation().0;
    let mut in_cycle = [false; 12];
    let mut slot: usize = 0;
    while slot < 12
        invariant
            slot <= 12,
            forall|k: int| 0 <= k < slot ==> in_cycle@[k] == (s.edges.perm@[k] != k),
        decreases 12 - slot,
    {
        in_cycle[slot] = s.edges.perm[slot] as usize != slot;
        slot = slot + 1;
    }
    EdgeMoveOp { perm: s.edges.perm, move_rot, in_cycle }
}

/// Corner and edge operations of the 18 phase-1 moves, read off a solved
/// cube after each move.
pub fn derive_phase1_ops() -> (r: (Vec<CornerMoveOp>, Vec<EdgeMoveOp>))
    ensures
        r.0@.len() == 18,
        r.1@.len() == 18,
        forall|i: int| 0 <= i < 18 ==> corner_op_ok(#[trigger] r.0@[i], i),
        forall|i: int| 0 <= i < 18 ==> edge_op_ok(#[trigger] r.1@[i], i),
{
    let mut corner_ops: Vec<CornerMoveOp> = Vec::new();
    let mut edge_ops: Vec<EdgeMoveOp> = Vec::new();
    let mut i: usize = 0;
    while i < 18
        invariant
            i <= 18,
            corner_ops@.len() == i,
            edge_ops@.len() == i,
            forall|j: int| 0 <= j < i ==> corner_op_ok(#[trigger] corner_ops@[j], j),
            forall|j: int| 0 <= j < i ==> edge_op_ok(#[trigger] edge_ops@[j], j),
        decreases 18 - i,
    {
        let (face, turn) = phase1_move_at(i);
        let m = Move::face(face, turn);
        proof {
            lemma_after_move_readable(i as int);
            crate::cube::lemma_solved_wf(3);
        }
        let mut cube = match Cube::solved(3) {
            Ok(c) => c,
            Err(_) => {
                proof {
                    assert(false);
                }
                return (corner_ops, edge_ops);
            },
        };
        proof {
            crate::cube::lemma_wf_pieces_ok(cube.cubies@, 3);
        }
        match cube.apply(m) {
            Ok(()) => {},
            Err(_) => {
                proof {
                    assert(false);
                }
                return (corner_ops, edge_ops);
            },
        }
        let s = State3x3::from_cube(&cube);
        corner_ops.push(CornerMoveOp { perm: s.corners.perm, orient: s.corners.orient });
        edge_ops.push(edge_op_from(m, &s));
        i = i + 1;
    }
    (corner_ops, edge_ops)
}

/// Derived corner operations move pieces between the 8 slots and twist by less than 3.
pub proof fn lemma_corner_op_valid(i: int)
    ensures
        forall|k: int| 0 <= k < 8 ==> cube_corners(after_move(i)).0[k] < 8 && cube_corners(after_move(i)).1[k] < 3,
{
    let cs = after_move(i);
    lemma_after_move_readable(i);
    assert forall|k: int| 0 <= k < 8 implies cube_corners(cs).0[k] < 8 && cube_corners(cs).1[k] < 3 by {
        let home = crate::three::state::corner_home(k);
        crate::three::state::lemma_piece_at_home(cs, home);
    }
}

/// Derived edge operations move pieces between the 12 slots.
pub proof fn lemma_edge_op_valid(i: int)
    ensures
        forall|k: int| 0 <= k < 12 ==> cube_edges(after_move(i)).0[k] < 12,
{
    let cs = after_move(i);
    lemma_after_move_readable(i);
    assert forall|k: int| 0 <= k < 12 implies cube_edges(cs).0[k] < 12 by {
        let home = crate::three::state::edge_home(k);
        crate::three::state::lemma_piece_at_home(cs, home);
    }
}

} // verus!
