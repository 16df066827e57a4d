//! Move tables and pruning tables of the two-phase solver.

use vstd::prelude::*;
use crate::cube::{Cubie, edge_orient, edge_orient_spec};
use crate::orient::{Orient, compose_idx};
use crate::three::coords::{
    N_CO, N_CP, N_EO, N_EP, N_UDSLICE, N_UDSLICE_PERM, encode_co, encode_cp, encode_eo, encode_ep,
    encode_udslice, encode_udslice_perm, mask_rank, eslice_mask, slice_part,
};
use crate::three::moves::{
    CornerMoveOp, EdgeMoveOp, N_PHASE1_MOVES, N_PHASE2_MOVES, corner_op_ok, derive_phase1_ops,
    edge_op_ok, phase2_to_phase1, phase2_to_phase1_spec,
};
use crate::three::state::{CornerState, EdgeState, State3x3, edge_home, edge_home_at, is_solved_spec, iota, zero_seq};
use crate::rank::{digits_rank, perm_rank};

verus! {

/// Table entry of a coordinate pair the search never reached.
pub const UNVISITED: u8 = 255;

/// Slot-level operations of the 18 phase-1 moves.
pub struct MoveTables {
    pub corner_ops: Vec<CornerMoveOp>,
    pub edge_ops: Vec<EdgeMoveOp>,
}

pub open spec fn corner_op_valid(op: CornerMoveOp) -> bool {
    forall|i: int| 0 <= i < 8 ==> op.perm@[i] < 8 && op.orient@[i] < 3
}

pub open spec fn edge_op_valid(op: EdgeMoveOp) -> bool {
    &&& forall|i: int| 0 <= i < 12 ==> op.perm@[i] < 12
    &&& op.move_rot < 24
}

impl MoveTables {
    pub open spec fn wf(&self) -> bool {
        &&& self.corner_ops@.len() == 18
        &&& self.edge_ops@.len() == 18
        &&& forall|i: int| 0 <= i < 18 ==> corner_op_valid(#[trigger] self.corner_ops@[i])
        &&& forall|i: int| 0 <= i < 18 ==> edge_op_valid(#[trigger] self.edge_ops@[i])
    }

    /// The operations of the 18 phase-1 moves, derived by simulation.
    pub fn build() -> (r: Self)
        ensures
            r.wf(),
            forall|i: int| 0 <= i < 18 ==> corner_op_ok(#[trigger] r.corner_ops@[i], i),
            forall|i: int| 0 <= i < 18 ==> edge_op_ok(#[trigger] r.edge_ops@[i], i),
    {
        let (corner_ops, edge_ops) = derive_phase1_ops();
        proof {
            assert forall|i: int| 0 <= i < 18 implies corner_op_valid(#[trigger] corner_ops@[i]) by {
                crate::three::moves::lemma_corner_op_valid(i);
                assert(corner_op_ok(corner_ops@[i], i));
                let c = crate::three::state::cube_corners(crate::three::moves::after_move(i));
                assert forall|k: int| 0 <= k < 8 implies corner_ops@[i].perm@[k] < 8
                    && corner_ops@[i].orient@[k] < 3 by {
                    assert(c.0[k] < 8 && c.1[k] < 3);
                }
            }
            assert forall|i: int| 0 <= i < 18 implies edge_op_valid(#[trigger] edge_ops@[i]) by {
                crate::three::moves::lemma_edge_op_valid(i);
                crate::moves::lemma_move_rotation(crate::three::moves::phase1_face_move(i));
                assert(edge_op_ok(edge_ops@[i], i));
                let c = crate::three::state::cube_edges(crate::three::moves::after_move(i));
                assert forall|k: int| 0 <= k < 12 implies edge_ops@[i].perm@[k] < 12 by {
                    assert(c.0[k] < 12);
                }
            }
        }
        Self { corner_ops, edge_ops }
    }
}

/// Twists below 3.
pub open spec fn corners_ok(s: CornerState) -> bool {
    forall|i: int| 0 <= i < 8 ==> s.orient@[i] < 3
}

/// Home indices below 12 and rotation indices below 24.
pub open spec fn edges_ok(s: EdgeState) -> bool {
    forall|i: int| 0 <= i < 12 ==> s.perm@[i] < 12 && s.rot@[i] < 24
}

pub open spec fn state_ok(s: State3x3) -> bool {
    corners_ok(s.corners) && edges_ok(s.edges)
}

/// Corner permutation and twists after a move.
pub open spec fn corner_after_v(p: Seq<u8>, o: Seq<u8>, op: CornerMoveOp) -> (Seq<u8>, Seq<u8>) {
    (
        Seq::new(8, |i: int| p[op.perm@[i] as int]),
        Seq::new(8, |i: int| ((o[op.perm@[i] as int] + op.orient@[i]) % 3) as u8),
    )
}

pub open spec fn corner_after(s: CornerState, op: CornerMoveOp) -> (Seq<u8>, Seq<u8>) {
    corner_after_v(s.perm@, s.orient@, op)
}

pub fn apply_corner_op(s: &CornerState, op: &CornerMoveOp) -> (r: CornerState)
    requires
        corners_ok(*s),
        corner_op_valid(*op),
    ensures
        (r.perm@, r.orient@) == corner_after(*s, *op),
        corners_ok(r),
{
    let mut new_perm = [0u8; 8];
    let mut new_orient = [0u8; 8];
    let mut slot: usize = 0;
    while slot < 8
        invariant
            corners_ok(*s),
            corner_op_valid(*op),
            slot <= 8,
            forall|j: int| 0 <= j < slot ==> new_perm@[j] == corner_after(*s, *op).0[j] && new_orient@[j]
                == corner_after(*s, *op).1[j],
        decreases 8 - slot,
    {
        let src = op.perm[slot] as usize;
        new_perm[slot] = s.perm[src];
        let twist = s.orient[src] + op.orient[slot];
        new_orient[slot] = if twist >= 3 {
            twist - 3
        } else {
            twist
        };
        slot = slot + 1;
    }
    proof {
        assert(new_perm@ =~= corner_after(*s, *op).0);
        assert(new_orient@ =~= corner_after(*s, *op).1);
    }
    CornerState { perm: new_perm, orient: new_orient }
}

/// Flip of the edge from home `h` under rotation `r`.
pub open spec fn edge_flip(h: int, r: int) -> u8 {
    edge_orient_spec(Cubie { solved_pos: edge_home(h), current_pos: edge_home(h), orientation: Orient(r as u8) })
}

pub open spec fn edge_rot_after_v(rot: Seq<u8>, op: EdgeMoveOp, i: int) -> u8 {
    if op.in_cycle@[i] {
        compose_idx(op.move_rot as int, rot[op.perm@[i] as int] as int) as u8
    } else {
        rot[op.perm@[i] as int]
    }
}

/// Edges after a move: each piece moves along `perm`, the pieces the move
/// turns take the move's rotation on top of their own, and every flip is
/// read again from the piece's home and rotation.
pub open spec fn edge_after_v(p: Seq<u8>, rot: Seq<u8>, op: EdgeMoveOp) -> (Seq<u8>, Seq<u8>, Seq<u8>) {
    (
        Seq::new(12, |i: int| p[op.perm@[i] as int]),
        Seq::new(12, |i: int| edge_flip(p[op.perm@[i] as int] as int, edge_rot_after_v(rot, op, i) as int)),
        Seq::new(12, |i: int| edge_rot_after_v(rot, op, i)),
    )
}

pub open spec fn edge_after(s: EdgeState, op: EdgeMoveOp) -> (Seq<u8>, Seq<u8>, Seq<u8>) {
    edge_after_v(s.perm@, s.rot@, op)
}

/// The state as sequences: corner permutation and twists, edge
/// permutation, flips and rotations.
pub struct StateView {
    pub cp: Seq<u8>,
    pub co: Seq<u8>,
    pub ep: Seq<u8>,
    pub eo: Seq<u8>,
    pub er: Seq<u8>,
}

pub open spec fn view_of(s: State3x3) -> StateView {
    StateView { cp: s.corners.perm@, co: s.corners.orient@, ep: s.edges.perm@, eo: s.edges.orient@, er: s.edges.rot@ }
}

/// A state view after the move with operations `cop` and `eop`.
pub open spec fn step_view(v: StateView, cop: CornerMoveOp, eop: EdgeMoveOp) -> StateView {
    let (cp, co) = corner_after_v(v.cp, v.co, cop);
    let (ep, eo, er) = edge_after_v(v.ep, v.er, eop);
    StateView { cp, co, ep, eo, er }
}

/// A state view after the phase-1 moves with indices `path`.
pub open spec fn walk_view(cops: Seq<CornerMoveOp>, eops: Seq<EdgeMoveOp>, v: StateView, path: Seq<int>) -> StateView
    decreases path.len(),
{
    if path.len() == 0 {
        v
    } else {
        let w = walk_view(cops, eops, v, path.drop_last());
        step_view(w, cops[path.last()], eops[path.last()])
    }
}

pub open spec fn in_g1_view(v: StateView) -> bool {
    &&& forall|i: int| 0 <= i < 8 ==> v.co[i] == 0
    &&& forall|i: int| 0 <= i < 12 ==> v.eo[i] == 0
    &&& forall|i: int| 0 <= i < 8 ==> v.ep[i] < 8
}

pub open spec fn solved_view(v: StateView) -> bool {
    v.cp == iota(8) && v.co == zero_seq(8) && v.ep == iota(12) && v.eo == zero_seq(12) && v.er == zero_seq(12)
}

fn flip_of(h: u8, r: u8) -> (f: u8)
    requires
        h < 12,
        r < 24,
    ensures
        f == edge_flip(h as int, r as int),
        f < 2,
{
    let home = edge_home_at(h as usize);
    let c = Cubie { solved_pos: home, current_pos: home, orientation: Orient(r) };
    edge_orient(&c)
}

pub fn apply_edge_op(s: &EdgeState, op: &EdgeMoveOp) -> (r: EdgeState)
    requires
        edges_ok(*s),
        edge_op_valid(*op),
    ensures
        (r.perm@, r.orient@, r.rot@) == edge_after(*s, *op),
        edges_ok(r),
{
    let mut new_perm = [0u8; 12];
    let mut new_orient = [0u8; 12];
    let mut new_rot = [0u8; 12];
    let mut slot: usize = 0;
    while slot < 12
        invariant
            edges_ok(*s),
            edge_op_valid(*op),
            slot <= 12,
            forall|j: int| 0 <= j < slot ==> new_perm@[j] == edge_after(*s, *op).0[j] && new_orient@[j]
                == edge_after(*s, *op).1[j] && new_rot@[j] == edge_after(*s, *op).2[j] && new_rot@[j] < 24,
        decreases 12 - slot,
    {
        let src = op.perm[slot] as usize;
        let piece = s.perm[src];
        let rot = if op.in_cycle[slot] {
            Orient(op.move_rot).compose(Orient(s.rot[src])).0
        } else {
            s.rot[src]
        };
        new_perm[slot] = piece;
        new_rot[slot] = rot;
        new_orient[slot] = flip_of(piece, rot);
        slot = slot + 1;
    }
    proof {
        assert(new_perm@ =~= edge_after(*s, *op).0);
        assert(new_orient@ =~= edge_after(*s, *op).1);
        assert(new_rot@ =~= edge_after(*s, *op).2);
    }
    EdgeState { perm: new_perm, orient: new_orient, rot: new_rot }
}

/// Rotation products and edge flips, tabulated for the table builds and
/// the searches.
pub(crate) struct EdgeLookup {
    /// `compose[a * 24 + b]` is the index of rotation `a` after `b`.
    pub(crate) compose: Vec<u8>,
    /// `flip[h * 24 + r]` is the flip of the edge from home `h` under
    /// rotation `r`.
    pub(crate) flip: Vec<u8>,
    /// Small binomial coefficients for the middle-slice coordinate.
    pub(crate) binoms: Vec<u32>,
}

impl EdgeLookup {
    pub(crate) open spec fn wf(&self) -> bool {
        &&& self.compose@.len() == 576
        &&& self.flip@.len() == 288
        &&& forall|a: int, b: int|
            0 <= a < 24 && 0 <= b < 24 ==> #[trigger] self.compose@[a * 24 + b] == compose_idx(a, b) && self.compose@[a
                * 24 + b] < 24
        &&& forall|h: int, r: int| 0 <= h < 12 && 0 <= r < 24 ==> #[trigger] self.flip@[h * 24 + r] == edge_flip(h, r)
        &&& crate::three::coords::binoms_ok(self.binoms@)
    }

    pub(crate) fn new() -> (r: Self)
        ensures
            r.wf(),
    {
        let mut compose: Vec<u8> = Vec::new();
        let mut a: u8 = 0;
        while a < 24
            invariant
                a <= 24,
                compose@.len() == a * 24,
                forall|x: int, y: int|
                    0 <= x < a && 0 <= y < 24 ==> #[trigger] compose@[x * 24 + y] == compose_idx(x, y) && compose@[x * 24
                        + y] < 24,
            decreases 24 - a,
        {
            let mut b: u8 = 0;
            while b < 24
                invariant
                    a < 24,
                    b <= 24,
                    compose@.len() == a * 24 + b,
                    forall|x: int, y: int|
                        0 <= x < a && 0 <= y < 24 ==> #[trigger] compose@[x * 24 + y] == compose_idx(x, y) && compose@[x
                            * 24 + y] < 24,
                    forall|y: int| 0 <= y < b ==> #[trigger] compose@[a * 24 + y] == compose_idx(a as int, y) && compose@[a
                        * 24 + y] < 24,
                decreases 24 - b,
            {
                let c = Orient(a).compose(Orient(b)).0;
                compose.push(c);
                b = b + 1;
            }
            a = a + 1;
        }
        let mut flip: Vec<u8> = Vec::new();
        let mut h: u8 = 0;
        while h < 12
            invariant
                h <= 12,
                flip@.len() == h * 24,
                forall|x: int, y: int| 0 <= x < h && 0 <= y < 24 ==> #[trigger] flip@[x * 24 + y] == edge_flip(x, y),
            decreases 12 - h,
        {
            let mut r: u8 = 0;
            while r < 24
                invariant
                    h < 12,
                    r <= 24,
                    flip@.len() == h * 24 + r,
                    forall|x: int, y: int| 0 <= x < h && 0 <= y < 24 ==> #[trigger] flip@[x * 24 + y] == edge_flip(x, y),
                    forall|y: int| 0 <= y < r ==> #[trigger] flip@[h * 24 + y] == edge_flip(h as int, y),
                decreases 24 - r,
            {
                flip.push(flip_of(h, r));
                r = r + 1;
            }
            h = h + 1;
        }
        Self { compose, flip, binoms: crate::three::coords::small_binomials() }
    }
}

/// [`apply_edge_op`] through the tabulated rotations and flips.
pub(crate) fn apply_edge_op_tab(s: &EdgeState, op: &EdgeMoveOp, lk: &EdgeLookup) -> (r: EdgeState)
    requires
        edges_ok(*s),
        edge_op_valid(*op),
        lk.wf(),
    ensures
        (r.perm@, r.orient@, r.rot@) == edge_after(*s, *op),
        edges_ok(r),
{
    let mut new_perm = [0u8; 12];
    let mut new_orient = [0u8; 12];
    let mut new_rot = [0u8; 12];
    let mut slot: usize = 0;
    while slot < 12
        invariant
            edges_ok(*s),
            edge_op_valid(*op),
            lk.wf(),
            slot <= 12,
            forall|j: int| 0 <= j < slot ==> new_perm@[j] == edge_after(*s, *op).0[j] && new_orient@[j]
                == edge_after(*s, *op).1[j] && new_rot@[j] == edge_after(*s, *op).2[j] && new_rot@[j] < 24,
        decreases 12 - slot,
    {
        let src = op.perm[slot] as usize;
        let piece = s.perm[src];
        let rot = if op.in_cycle[slot] {
            lk.compose[op.move_rot as usize * 24 + s.rot[src] as usize]
        } else {
            s.rot[src]
        };
        new_perm[slot] = piece;
        new_rot[slot] = rot;
        new_orient[slot] = lk.flip[piece as usize * 24 + rot as usize];
        slot = slot + 1;
    }
    proof {
        assert(new_perm@ =~= edge_after(*s, *op).0);
        assert(new_orient@ =~= edge_after(*s, *op).1);
        assert(new_rot@ =~= edge_after(*s, *op).2);
    }
    EdgeState { perm: new_perm, orient: new_orient, rot: new_rot }
}

// ---------------------------------------------------------------------
// Pruning tables.
// ---------------------------------------------------------------------

/// Which coordinate pair a pruning table is indexed by.
#[derive(Debug, Clone, Copy, PartialEq, Eq)]
pub enum PruneKind {
    CoUdslice,
    EoUdslice,
    CoEo,
    CpUperm,
    EpUperm,
}

pub open spec fn kind_size(k: PruneKind) -> int {
    match k {
        PruneKind::CoUdslice => N_CO * N_UDSLICE,
        PruneKind::EoUdslice => N_EO * N_UDSLICE,
        PruneKind::CoEo => N_CO * N_EO,
        PruneKind::CpUperm => N_CP * N_UDSLICE_PERM,
        PruneKind::EpUperm => N_EP * N_UDSLICE_PERM,
    }
}

/// Middle-slice slots hold middle-slice edges.
pub open spec fn slice_ok(e: EdgeState) -> bool {
    forall|i: int| 8 <= i < 12 ==> e.perm@[i] >= 8
}

pub open spec fn mask_of_perm(p: Seq<u8>) -> Seq<bool> {
    Seq::new(12, |i: int| p[i] >= 8)
}

pub open spec fn slice_of_perm(p: Seq<u8>) -> Seq<u8> {
    Seq::new(4, |i: int| (p[8 + i] - 8) as u8)
}

/// Index of a coordinate pair, from corner permutation and twists and
/// edge permutation and flips, in a table of kind `k`; `None` when the
/// pair cannot be encoded (a phase-2 pair with other edges in the middle
/// slice) or falls outside the table.
pub open spec fn kind_index_v(k: PruneKind, cp: Seq<u8>, co: Seq<u8>, ep: Seq<u8>, eo: Seq<u8>) -> Option<int> {
    let i = match k {
        PruneKind::CoUdslice => digits_rank(co, 3, 7) * N_UDSLICE + mask_rank(mask_of_perm(ep)),
        PruneKind::EoUdslice => digits_rank(eo, 2, 11) * N_UDSLICE + mask_rank(mask_of_perm(ep)),
        PruneKind::CoEo => digits_rank(co, 3, 7) * N_EO + digits_rank(eo, 2, 11),
        PruneKind::CpUperm => perm_rank(cp, 8, 8) * N_UDSLICE_PERM + perm_rank(slice_of_perm(ep), 4, 4),
        PruneKind::EpUperm => perm_rank(ep.take(8), 8, 8) * N_UDSLICE_PERM + perm_rank(slice_of_perm(ep), 4, 4),
    };
    let phase2 = k == PruneKind::CpUperm || k == PruneKind::EpUperm;
    let sl = forall|j: int| 8 <= j < 12 ==> ep[j] >= 8;
    if (phase2 && !sl) || i < 0 || i >= kind_size(k) {
        None
    } else {
        Some(i)
    }
}

pub open spec fn kind_index(k: PruneKind, s: State3x3) -> Option<int> {
    kind_index_v(k, s.corners.perm@, s.corners.orient@, s.edges.perm@, s.edges.orient@)
}

/// Index of the solved state.
pub open spec fn goal_index(k: PruneKind) -> Option<int> {
    kind_index_v(k, iota(8), zero_seq(8), iota(12), zero_seq(12))
}

fn kind_table_size(k: PruneKind) -> (r: usize)
    ensures
        r == kind_size(k),
{
    match k {
        PruneKind::CoUdslice => N_CO * N_UDSLICE,
        PruneKind::EoUdslice => N_EO * N_UDSLICE,
        PruneKind::CoEo => N_CO * N_EO,
        PruneKind::CpUperm => N_CP * N_UDSLICE_PERM,
        PruneKind::EpUperm => N_EP * N_UDSLICE_PERM,
    }
}

fn slice_holds_slice_edges(e: &EdgeState) -> (r: bool)
    ensures
        r == slice_ok(*e),
{
    e.perm[8] >= 8 && e.perm[9] >= 8 && e.perm[10] >= 8 && e.perm[11] >= 8
}

fn kind_coord(k: PruneKind, s: &State3x3, lk: &EdgeLookup) -> (r: Option<usize>)
    requires
        lk.wf(),
    ensures
        match kind_index(k, *s) {
            Some(i) => r == Some(i as usize),
            None => r is None,
        },
{
    proof {
        assert(eslice_mask(s.edges) =~= mask_of_perm(s.edges.perm@));
        assert(slice_part(s.edges) =~= slice_of_perm(s.edges.perm@));
    }
    let size = kind_table_size(k);
    let i: u64 = match k {
        PruneKind::CoUdslice => encode_co(&s.corners) as u64 * N_UDSLICE as u64 + crate::three::coords::encode_udslice_with(
            &s.edges,
            &lk.binoms,
        ) as u64,
        PruneKind::EoUdslice => encode_eo(&s.edges) as u64 * N_UDSLICE as u64 + crate::three::coords::encode_udslice_with(
            &s.edges,
            &lk.binoms,
        ) as u64,
        PruneKind::CoEo => encode_co(&s.corners) as u64 * N_EO as u64 + encode_eo(&s.edges) as u64,
        PruneKind::CpUperm => {
            if !slice_holds_slice_edges(&s.edges) {
                return None;
            }
            encode_cp(&s.corners) as u64 * N_UDSLICE_PERM as u64 + encode_udslice_perm(&s.edges) as u64
        },
        PruneKind::EpUperm => {
            if !slice_holds_slice_edges(&s.edges) {
                return None;
            }
            encode_ep(&s.edges) as u64 * N_UDSLICE_PERM as u64 + encode_udslice_perm(&s.edges) as u64
        },
    };
    if i >= size as u64 {
        None
    } else {
        Some(i as usize)
    }
}

/// Table entries are 0 exactly at the index of the solved state.
pub open spec fn table_ok(t: Seq<u8>, k: PruneKind) -> bool {
    &&& t.len() == kind_size(k)
    &&& forall|i: int| 0 <= i < t.len() ==> (t[i] == 0) == (goal_index(k) == Some(i))
}

/// Breadth-first search over full states from solved, recording for each
/// coordinate pair the depth at which it is first seen. Phase 2 uses only
/// the 10 phase-2 moves. States whose pair cannot be encoded are not
/// followed; the search stops after 254 levels, where the `u8` entries
/// run out.
fn build_full_pruning(tables: &MoveTables, lk: &EdgeLookup, k: PruneKind, phase2: bool) -> (r: Vec<u8>)
    requires
        tables.wf(),
        lk.wf(),
    ensures
        table_ok(r@, k),
{
    let size = kind_table_size(k);
    let mut table: Vec<u8> = vec![UNVISITED; size];
    let goal = State3x3::solved();
    let ghost gi = goal_index(k);
    proof {
        assert(kind_index(k, goal) == goal_index(k));
    }
    match kind_coord(k, &goal, lk) {
        Some(i) => {
            table.set(i, 0);
        },
        None => {},
    }
    let n_moves = if phase2 {
        N_PHASE2_MOVES
    } else {
        N_PHASE1_MOVES
    };
    // A pair reads the corners unless it is `(eo, udslice)` or
    // `(ep, udslice_perm)`, and the edge rotations and flips only for
    // `(eo, udslice)` and `(co, eo)`. What a pair does not read, no later
    // pair reads either: the corner part of a move works on the corners
    // alone, and the edge permutation on the edge permutation alone. So
    // `step_for_table` leaves those parts as they were, which gives the same
    // tables with less work.
    let reads_corners = match k {
        PruneKind::EoUdslice | PruneKind::EpUperm => false,
        _ => true,
    };
    let reads_flips = match k {
        PruneKind::EoUdslice | PruneKind::CoEo => true,
        _ => false,
    };
    let mut frontier: Vec<State3x3> = Vec::new();
    frontier.push(goal);
    let mut dist: u8 = 0;
    while frontier.len() > 0 && dist < 254
        invariant
            tables.wf(),
            lk.wf(),
            n_moves == (if phase2 { 10usize } else { 18usize }),
            gi == goal_index(k),
            table_ok(table@, k),
            forall|j: int| 0 <= j < frontier@.len() ==> state_ok(#[trigger] frontier@[j]),
        decreases 254 - dist,
    {
        let mut next: Vec<State3x3> = Vec::new();
        let mut f: usize = 0;
        while f < frontier.len()
            invariant
                tables.wf(),
                lk.wf(),
                n_moves == (if phase2 { 10usize } else { 18usize }),
                dist < 254,
                table_ok(table@, k),
                forall|j: int| 0 <= j < frontier@.len() ==> state_ok(#[trigger] frontier@[j]),
                forall|j: int| 0 <= j < next@.len() ==> state_ok(#[trigger] next@[j]),
                f <= frontier@.len(),
            decreases frontier@.len() - f,
        {
            let state = frontier[f];
            let mut m: usize = 0;
            while m < n_moves
                invariant
                    tables.wf(),
                    lk.wf(),
                    n_moves == (if phase2 { 10usize } else { 18usize }),
                    state_ok(state),
                    dist < 254,
                    table_ok(table@, k),
                    forall|j: int| 0 <= j < next@.len() ==> state_ok(#[trigger] next@[j]),
                    m <= n_moves,
                decreases n_moves - m,
            {
                let op = if phase2 {
                    phase2_to_phase1(m)
                } else {
                    m
                };
                let new_state = step_for_table(
                    &state,
                    &tables.corner_ops[op],
                    &tables.edge_ops[op],
                    lk,
                    reads_corners,
                    reads_flips,
                );
                match kind_coord(k, &new_state, lk) {
                    Some(i) => {
                        if table[i] == UNVISITED {
                            table.set(i, dist + 1);
                            next.push(new_state);
                        }
                    },
                    None => {},
                }
                m = m + 1;
            }
            f = f + 1;
        }
        frontier = next;
        dist = dist + 1;
    }
    table
}

/// The state after a move, as the breadth-first searches over coordinate
/// pairs follow it: only the slots the move changes are rewritten, a slot
/// the move leaves alone keeping its piece, rotation and flip; the corners
/// are followed only when `corners` is set, and edge rotations and flips
/// only when `flips` is set.
fn step_for_table(
    s: &State3x3,
    cop: &CornerMoveOp,
    eop: &EdgeMoveOp,
    lk: &EdgeLookup,
    corners: bool,
    flips: bool,
) -> (r: State3x3)
    requires
        state_ok(*s),
        corner_op_valid(*cop),
        edge_op_valid(*eop),
        lk.wf(),
    ensures
        state_ok(r),
{
    let mut r = *s;
    if corners {
        let mut slot: usize = 0;
        while slot < 8
            invariant
                state_ok(*s),
                corner_op_valid(*cop),
                slot <= 8,
                state_ok(r),
            decreases 8 - slot,
        {
            let src = cop.perm[slot] as usize;
            if src != slot || cop.orient[slot] != 0 {
                r.corners.perm[slot] = s.corners.perm[src];
                let twist = s.corners.orient[src] + cop.orient[slot];
                r.corners.orient[slot] = if twist >= 3 {
                    twist - 3
                } else {
                    twist
                };
            }
            slot = slot + 1;
        }
    }
    let mut slot: usize = 0;
    while slot < 12
        invariant
            state_ok(*s),
            edge_op_valid(*eop),
            lk.wf(),
            slot <= 12,
            state_ok(r),
        decreases 12 - slot,
    {
        let src = eop.perm[slot] as usize;
        if src != slot || eop.in_cycle[slot] {
            let piece = s.edges.perm[src];
            r.edges.perm[slot] = piece;
            if flips {
                let rot = if eop.in_cycle[slot] {
                    lk.compose[eop.move_rot as usize * 24 + s.edges.rot[src] as usize]
                } else {
                    s.edges.rot[src]
                };
                r.edges.rot[slot] = rot;
                r.edges.orient[slot] = lk.flip[piece as usize * 24 + rot as usize];
            }
        }
        slot = slot + 1;
    }
    r
}

/// Pruning tables: distance of each coordinate pair from the solved pair.
pub struct PruningTables {
    /// Phase 1: `(co, udslice)`.
    pub p1_co_udslice: Vec<u8>,
    /// Phase 1: `(eo, udslice)`.
    pub p1_eo_udslice: Vec<u8>,
    /// Phase 1: `(co, eo)`.
    pub p1_co_eo: Vec<u8>,
    /// Phase 2: `(cp, udslice_perm)`.
    pub p2_cp_uperm: Vec<u8>,
    /// Phase 2: `(ep, udslice_perm)`.
    pub p2_ep_uperm: Vec<u8>,
    /// `udslice` coordinate of the solved cube.
    pub udslice_goal: u16,
}

impl PruningTables {
    pub open spec fn wf(&self) -> bool {
        &&& table_ok(self.p1_co_udslice@, PruneKind::CoUdslice)
        &&& table_ok(self.p1_eo_udslice@, PruneKind::EoUdslice)
        &&& table_ok(self.p1_co_eo@, PruneKind::CoEo)
        &&& table_ok(self.p2_cp_uperm@, PruneKind::CpUperm)
        &&& table_ok(self.p2_ep_uperm@, PruneKind::EpUperm)
        &&& self.udslice_goal == mask_rank(mask_of_perm(iota(12))) as u16
    }

    /// Every table has the length of its coordinate-pair space.
    pub open spec fn shape_ok(&self) -> bool {
        &&& self.p1_co_udslice@.len() == kind_size(PruneKind::CoUdslice)
        &&& self.p1_eo_udslice@.len() == kind_size(PruneKind::EoUdslice)
        &&& self.p1_co_eo@.len() == kind_size(PruneKind::CoEo)
        &&& self.p2_cp_uperm@.len() == kind_size(PruneKind::CpUperm)
        &&& self.p2_ep_uperm@.len() == kind_size(PruneKind::EpUperm)
    }

    /// Run the five breadth-first searches.
    pub fn build(tables: &MoveTables) -> (r: Self)
        requires
            tables.wf(),
        ensures
            r.wf(),
            r.shape_ok(),
    {
        let solved_edges = EdgeState::solved();
        proof {
            assert(eslice_mask(solved_edges) =~= mask_of_perm(iota(12)));
        }
        let udslice_goal = encode_udslice(&solved_edges) as u16;
        let lk = EdgeLookup::new();
        Self {
            p1_co_udslice: build_full_pruning(tables, &lk, PruneKind::CoUdslice, false),
            p1_eo_udslice: build_full_pruning(tables, &lk, PruneKind::EoUdslice, false),
            p1_co_eo: build_full_pruning(tables, &lk, PruneKind::CoEo, false),
            p2_cp_uperm: build_full_pruning(tables, &lk, PruneKind::CpUperm, true),
            p2_ep_uperm: build_full_pruning(tables, &lk, PruneKind::EpUperm, true),
            udslice_goal,
        }
    }

    pub fn p1_co_udslice_at(&self, co: u16, ud: u16) -> (r: u8)
        requires
            self.shape_ok(),
            co < N_CO,
            ud < N_UDSLICE,
        ensures
            r == self.p1_co_udslice@[co * N_UDSLICE + ud],
    {
        self.p1_co_udslice[co as usize * N_UDSLICE + ud as usize]
    }

    pub fn p1_eo_udslice_at(&self, eo: u16, ud: u16) -> (r: u8)
        requires
            self.shape_ok(),
            eo < N_EO,
            ud < N_UDSLICE,
        ensures
            r == self.p1_eo_udslice@[eo * N_UDSLICE + ud],
    {
        self.p1_eo_udslice[eo as usize * N_UDSLICE + ud as usize]
    }

    pub fn p1_co_eo_at(&self, co: u16, eo: u16) -> (r: u8)
        requires
            self.shape_ok(),
            co < N_CO,
            eo < N_EO,
        ensures
            r == self.p1_co_eo@[co * N_EO + eo],
    {
        self.p1_co_eo[co as usize * N_EO + eo as usize]
    }

    pub fn p2_cp_uperm_at(&self, cp: u32, up: u8) -> (r: u8)
        requires
            self.shape_ok(),
            cp < N_CP,
            up < N_UDSLICE_PERM,
        ensures
            r == self.p2_cp_uperm@[cp * N_UDSLICE_PERM + up],
    {
        self.p2_cp_uperm[cp as usize * N_UDSLICE_PERM + up as usize]
    }

    pub fn p2_ep_uperm_at(&self, ep: u32, up: u8) -> (r: u8)
        requires
            self.shape_ok(),
            ep < N_EP,
            up < N_UDSLICE_PERM,
        ensures
            r == self.p2_ep_uperm@[ep * N_UDSLICE_PERM + up],
    {
        self.p2_ep_uperm[ep as usize * N_UDSLICE_PERM + up as usize]
    }
}

} // verus!
