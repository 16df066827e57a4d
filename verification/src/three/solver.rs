//! Two-phase IDA* solver. Phase 1 reduces to `G1 = <U, D, R2, L2, F2, B2>`;
//! phase 2 finishes from `G1` to solved using only `G1` moves.

use vstd::prelude::*;
use crate::cube::{Cube, Cubie, run_moves};
use crate::moves::{Face, Move, MoveSeq, Turn, cancel_spec};
use crate::three::coords::{
    N_CO, N_CP, N_EP, N_UDSLICE, N_UDSLICE_PERM, encode_co, encode_cp, encode_ep,
    encode_udslice, encode_udslice_perm, encode_udslice_with, eslice_mask, mask_rank, slice_part,
};
use crate::rank::{digits_rank, perm_rank};
use crate::three::moves::{phase1_move, phase1_move_at, phase2_to_phase1, phase2_to_phase1_spec};
use crate::three::cache::{CacheError, TablesView, decode_tables, decoded, encode_tables, encoded, tables_view};
use crate::three::state::{State3x3, cube_corners, cube_edges, in_g1, is_solved_spec, kinds_match};
use crate::three::tracking::{all_consistent, ops_read};
use crate::three::tables::{
    EdgeLookup, MoveTables, PruningTables, StateView, apply_corner_op, apply_edge_op, apply_edge_op_tab, corner_after, edge_after,
    in_g1_view, solved_view, state_ok, step_view, view_of, walk_view,
};

verus! {

#[derive(Debug, Clone, PartialEq, Eq)]
pub enum Solve3x3Error {
    /// The cube is not a 3×3.
    WrongSize(u8),
    /// Phase 1 found no way into `G1` within its depth bound.
    Phase1NoSolution,
    /// Phase 2 found no way to solved within its depth bound.
    Phase2NoSolution,
}

/// Depth bound of phase 1.
pub const MAX_PHASE1: u8 = 12;

/// Depth bound of phase 2.
pub const MAX_PHASE2: u8 = 18;

/// 3×3 two-phase solver.
pub struct Solver3x3 {
    pub move_tables: MoveTables,
    pub pruning: PruningTables,
}

enum DfsOutcome {
    Found,
    NewBound(u8),
    Exhausted,
}

/// Phase-1 indices of a path.
pub open spec fn p1_ints(p: Seq<usize>) -> Seq<int> {
    p.map_values(|i: usize| i as int)
}

/// Phase-1 indices of a path of phase-2 moves.
pub open spec fn p2_ints(p: Seq<usize>) -> Seq<int> {
    p.map_values(|i: usize| phase2_to_phase1_spec(i as int))
}

/// The face moves of phase-1 indices.
pub open spec fn face_moves(p: Seq<int>) -> Seq<Move> {
    p.map_values(|i: int| Move { face: phase1_move(i).0, turn: phase1_move(i).1, depth: 1, wide: false })
}

/// The state view of the pieces of a 3×3 cube.
pub open spec fn cube_view(cs: Seq<Cubie>) -> StateView {
    StateView {
        cp: cube_corners(cs).0,
        co: cube_corners(cs).1,
        ep: cube_edges(cs).0,
        eo: cube_edges(cs).1,
        er: cube_edges(cs).2,
    }
}

/// `ms` is a solution the solver may hand back for the state with view
/// `v`: nothing for a solved state; otherwise a phase-1 path into `G1`
/// followed by a phase-2 path to solved, over the 18 phase-1 move
/// indices, as face moves with adjacent turns of one face merged.
pub open spec fn is_solution(s: &Solver3x3, v: StateView, ms: Seq<Move>) -> bool {
    ||| solved_view(v) && ms.len() == 0
    ||| exists|p1: Seq<int>, p2: Seq<int>|
        #![trigger face_moves(p1 + p2)]
        in_g1_view(s.walk(v, p1)) && solved_view(s.walk(v, p1 + p2)) && ms == cancel_spec(face_moves(p1 + p2))
            && forall|k: int| 0 <= k < (p1 + p2).len() ==> 0 <= #[trigger] (p1 + p2)[k] < 18
}

/// Phase-1 lower bound read from the `(co, udslice)` table: 0 when the
/// middle-slice coordinate is out of the table's range.
pub open spec fn phase1_estimate(t: PruningTables, state: State3x3) -> u8 {
    if mask_rank(eslice_mask(state.edges)) >= N_UDSLICE {
        0
    } else {
        t.p1_co_udslice@[digits_rank(state.corners.orient@, 3, 7) * N_UDSLICE + mask_rank(eslice_mask(state.edges))]
    }
}

/// Phase-2 lower bound: the larger of the `(cp, udslice_perm)` and
/// `(ep, udslice_perm)` entries, or 0 when the middle slice holds other
/// edges.
pub open spec fn phase2_estimate(t: PruningTables, state: State3x3) -> u8 {
    let e = state.edges;
    if !(e.perm@[8] >= 8 && e.perm@[9] >= 8 && e.perm@[10] >= 8 && e.perm@[11] >= 8) {
        0
    } else {
        let up = perm_rank(slice_part(e), 4, 4);
        let a = t.p2_cp_uperm@[perm_rank(state.corners.perm@, 8, 8) * N_UDSLICE_PERM + up];
        let b = t.p2_ep_uperm@[perm_rank(e.perm@.take(8), 8, 8) * N_UDSLICE_PERM + up];
        if a >= b {
            a
        } else {
            b
        }
    }
}

/// Face (0..6, in `U D R L F B` order) of a move index of either phase.
pub open spec fn face_of(idx: int, is_phase2: bool) -> int {
    (if is_phase2 {
        phase2_to_phase1_spec(idx)
    } else {
        idx
    }) / 3
}

/// Move pruning: `next` does not repeat the last face, comes after the
/// last move's face on a shared axis, and is not the third move in a row
/// on one axis.
pub open spec fn pruning_ok(last: Option<usize>, second_last: Option<usize>, next: usize, is_phase2: bool) -> bool {
    let nf = face_of(next as int, is_phase2);
    match last {
        None => true,
        Some(p) => {
            let pf = face_of(p as int, is_phase2);
            &&& pf != nf
            &&& pf / 2 == nf / 2 ==> {
                &&& nf > pf
                &&& match second_last {
                    None => true,
                    Some(pp) => face_of(pp as int, is_phase2) / 2 != nf / 2,
                }
            }
        },
    }
}

impl Solver3x3 {
    pub open spec fn wf(&self) -> bool {
        &&& self.move_tables.wf()
        &&& self.pruning.shape_ok()
        &&& forall|i: int|
            0 <= i < 18 ==> ops_read(
                #[trigger] self.move_tables.corner_ops@[i],
                self.move_tables.edge_ops@[i],
                crate::three::moves::phase1_face_move(i),
            )
    }

    pub open spec fn walk(&self, v: StateView, path: Seq<int>) -> StateView {
        walk_view(self.move_tables.corner_ops@, self.move_tables.edge_ops@, v, path)
    }

    /// Build move tables and pruning tables.
    pub fn new() -> (r: Self)
        ensures
            r.wf(),
    {
        let move_tables = MoveTables::build();
        let pruning = PruningTables::build(&move_tables);
        Self { move_tables, pruning }
    }

    /// A solver whose pruning tables come from cache bytes when they decode;
    /// otherwise the tables are built afresh and handed back encoded, for
    /// the caller to store in place of the rejected cache.
    pub fn new_with_cache(cached: &[u8]) -> (r: (Self, Option<Vec<u8>>))
        ensures
            r.0.wf(),
            decoded(cached@) is Ok ==> decoded(cached@) == Ok::<TablesView, CacheError>(
                tables_view(r.0.pruning),
            ) && r.1 is None,
            decoded(cached@) is Err ==> r.0.pruning.wf() && (r.1 matches Some(b) && b@ == encoded(
                tables_view(r.0.pruning),
            )),
    {
        let move_tables = MoveTables::build();
        match decode_tables(cached) {
            Ok(pruning) => (Self { move_tables, pruning }, None),
            Err(_) => {
                let pruning = PruningTables::build(&move_tables);
                let bytes = encode_tables(&pruning);
                (Self { move_tables, pruning }, Some(bytes))
            },
        }
    }

    /// State after phase-1 move `m`.
    fn step(&self, state: &State3x3, m: usize) -> (r: State3x3)
        requires
            self.wf(),
            state_ok(*state),
            m < 18,
        ensures
            state_ok(r),
            view_of(r) == step_view(view_of(*state), self.move_tables.corner_ops@[m as int], self.move_tables.edge_ops@[m as int]),
    {
        let corners = apply_corner_op(&state.corners, &self.move_tables.corner_ops[m]);
        let edges = apply_edge_op(&state.edges, &self.move_tables.edge_ops[m]);
        State3x3 { corners, edges }
    }

    /// [`Self::step`] through tabulated rotations.
    fn step_with(&self, state: &State3x3, m: usize, lk: &EdgeLookup) -> (r: State3x3)
        requires
            self.wf(),
            lk.wf(),
            state_ok(*state),
            m < 18,
        ensures
            state_ok(r),
            view_of(r) == step_view(view_of(*state), self.move_tables.corner_ops@[m as int], self.move_tables.edge_ops@[m as int]),
    {
        let corners = apply_corner_op(&state.corners, &self.move_tables.corner_ops[m]);
        let edges = apply_edge_op_tab(&state.edges, &self.move_tables.edge_ops[m], lk);
        State3x3 { corners, edges }
    }

    /// [`Self::phase1_heuristic`] through tabulated binomials.
    fn phase1_bound(&self, state: &State3x3, lk: &EdgeLookup) -> (r: u8)
        requires
            self.wf(),
            lk.wf(),
            state_ok(*state),
        ensures
            r == phase1_estimate(self.pruning, *state),
    {
        let co = encode_co(&state.corners);
        let ud = encode_udslice_with(&state.edges, &lk.binoms);
        if ud as usize >= N_UDSLICE {
            return 0;
        }
        self.pruning.p1_co_udslice_at(co as u16, ud as u16)
    }

    /// Phase-1 lower bound: the `(co, udslice)` table entry, or 0 when
    /// the middle-slice coordinate is out of the table's range.
    pub fn phase1_heuristic(&self, state: &State3x3) -> (r: u8)
        requires
            self.wf(),
            state_ok(*state),
        ensures
            r == phase1_estimate(self.pruning, *state),
    {
        let co = encode_co(&state.corners);
        let ud = encode_udslice(&state.edges);
        if ud as usize >= N_UDSLICE {
            return 0;
        }
        self.pruning.p1_co_udslice_at(co as u16, ud as u16)
    }

    /// Phase-2 lower bound: the larger of the `(cp, udslice_perm)` and
    /// `(ep, udslice_perm)` entries, or 0 when the middle slice holds
    /// other edges.
    fn phase2_heuristic(&self, state: &State3x3) -> (r: u8)
        requires
            self.wf(),
            state_ok(*state),
        ensures
            r == phase2_estimate(self.pruning, *state),
    {
        let e = &state.edges;
        if !(e.perm[8] >= 8 && e.perm[9] >= 8 && e.perm[10] >= 8 && e.perm[11] >= 8) {
            return 0;
        }
        let cp = encode_cp(&state.corners);
        let ep = encode_ep(&state.edges);
        let up = encode_udslice_perm(&state.edges) as u8;
        let a = self.pruning.p2_cp_uperm_at(cp, up);
        let b = self.pruning.p2_ep_uperm_at(ep, up);
        if a >= b {
            a
        } else {
            b
        }
    }
}

/// Face (0..6, in `U D R L F B` order) of a move index.
fn move_face(idx: usize, is_phase2: bool) -> (r: u8)
    requires
        is_phase2 ==> idx < 10,
        !is_phase2 ==> idx < 18,
    ensures
        r < 6,
        r == face_of(idx as int, is_phase2),
{
    let p1 = if is_phase2 {
        phase2_to_phase1(idx)
    } else {
        idx
    };
    (p1 / 3) as u8
}

/// Move pruning: no repeat of the last face; on one axis only the
/// canonical order (`U` before `D`, `R` before `L`, `F` before `B`); and
/// no third move in a row on one axis.
fn pruning_allowed(last: Option<usize>, second_last: Option<usize>, next: usize, is_phase2: bool) -> (r: bool)
    requires
        is_phase2 ==> next < 10,
        !is_phase2 ==> next < 18,
        last matches Some(p) ==> (if is_phase2 { p < 10 } else { p < 18 }),
        second_last matches Some(p) ==> (if is_phase2 { p < 10 } else { p < 18 }),
    ensures
        r == pruning_ok(last, second_last, next, is_phase2),
{
    let next_face = move_face(next, is_phase2);
    let next_axis = next_face / 2;
    match last {
        Some(p) => {
            let prev_face = move_face(p, is_phase2);
            if prev_face == next_face {
                return false;
            }
            let prev_axis = prev_face / 2;
            if prev_axis == next_axis {
                if next_face < prev_face {
                    return false;
                }
                match second_last {
                    Some(pp) => {
                        let pp_face = move_face(pp, is_phase2);
                        if pp_face / 2 == next_axis {
                            return false;
                        }
                    },
                    None => {},
                }
            }
        },
        None => {},
    }
    true
}

/// Walking a path that starts with `m` is walking the rest from the state
/// after `m`.
pub proof fn lemma_walk_front(s: &Solver3x3, v: StateView, m: int, t: Seq<int>)
    ensures
        s.walk(v, seq![m] + t) == s.walk(step_view(v, s.move_tables.corner_ops@[m], s.move_tables.edge_ops@[m]), t),
    decreases t.len(),
{
    let c = s.move_tables.corner_ops@;
    let e = s.move_tables.edge_ops@;
    if t.len() == 0 {
        assert(seq![m] + t =~= seq![m]);
        assert(seq![m].drop_last() =~= Seq::<int>::empty());
        assert(walk_view(c, e, v, seq![m]) == step_view(walk_view(c, e, v, Seq::<int>::empty()), c[m], e[m]));
    } else {
        lemma_walk_front(s, v, m, t.drop_last());
        let mt = seq![m] + t;
        assert(mt.drop_last() =~= seq![m] + t.drop_last());
        assert(mt.last() == t.last());
        assert(walk_view(c, e, v, mt) == step_view(walk_view(c, e, v, mt.drop_last()), c[t.last()], e[t.last()]));
    }
}

/// Walking a concatenation is walking one part after the other.
pub proof fn lemma_walk_concat(s: &Solver3x3, v: StateView, a: Seq<int>, b: Seq<int>)
    ensures
        s.walk(v, a + b) == s.walk(s.walk(v, a), b),
    decreases b.len(),
{
    if b.len() == 0 {
        assert(a + b =~= a);
    } else {
        lemma_walk_concat(s, v, a, b.drop_last());
        assert((a + b).drop_last() =~= a + b.drop_last());
    }
}

fn phase1_dfs(
    s: &Solver3x3,
    lk: &EdgeLookup,
    state: &State3x3,
    g: u8,
    bound: u8,
    last: Option<usize>,
    second_last: Option<usize>,
    path: &mut Vec<usize>,
) -> (r: DfsOutcome)
    requires
        s.wf(),
        lk.wf(),
        state_ok(*state),
        g <= bound + 1,
        bound <= MAX_PHASE1,
        last matches Some(p) ==> p < 18,
        second_last matches Some(p) ==> p < 18,
    ensures
        match r {
            DfsOutcome::Found => exists|suffix: Seq<usize>|
                #![trigger old(path)@ + suffix]
                final(path)@ == old(path)@ + suffix && (forall|k: int| 0 <= k < suffix.len() ==> suffix[k] < 18)
                    && in_g1_view(s.walk(view_of(*state), p1_ints(suffix))) && g + suffix.len() <= bound,
            DfsOutcome::NewBound(b) => b > bound && final(path)@ == old(path)@,
            DfsOutcome::Exhausted => final(path)@ == old(path)@,
        },
        g + phase1_estimate(s.pruning, *state) <= bound && in_g1(*state) ==> (r is Found && final(path)@
            == old(path)@),
    decreases bound + 1 - g,
{
    let h = s.phase1_bound(state, lk);
    let f = g.saturating_add(h);
    if f > bound {
        return DfsOutcome::NewBound(f);
    }
    if state.is_in_g1() {
        proof {
            assert(old(path)@ + Seq::<usize>::empty() =~= old(path)@);
            assert(p1_ints(Seq::<usize>::empty()) =~= Seq::<int>::empty());
        }
        return DfsOutcome::Found;
    }
    let mut min_next: u8 = 255;
    let mut m: usize = 0;
    while m < 18
        invariant
            s.wf(),
            lk.wf(),
            state_ok(*state),
            g <= bound,
            bound <= MAX_PHASE1,
            !in_g1(*state),
            last matches Some(p) ==> p < 18,
            second_last matches Some(p) ==> p < 18,
            path@ == old(path)@,
            min_next > bound,
            m <= 18,
        decreases 18 - m,
    {
        if pruning_allowed(last, second_last, m, false) {
            let next = s.step_with(state, m, lk);
            let ghost before = path@;
            path.push(m);
            match phase1_dfs(s, lk, &next, g + 1, bound, Some(m), last, path) {
                DfsOutcome::Found => {
                    proof {
                        let suffix = choose|suffix: Seq<usize>|
                            #![trigger before.push(m) + suffix]
                            path@ == before.push(m) + suffix && (forall|k: int| 0 <= k < suffix.len() ==> suffix[k] < 18)
                                && in_g1_view(s.walk(view_of(next), p1_ints(suffix))) && g + 1 + suffix.len() <= bound;
                        let full = seq![m] + suffix;
                        assert(before.push(m) + suffix =~= before + full);
                        assert(p1_ints(full) =~= seq![m as int] + p1_ints(suffix));
                        lemma_walk_front(s, view_of(*state), m as int, p1_ints(suffix));
                        assert(forall|k: int| 0 <= k < full.len() ==> full[k] < 18);
                    }
                    return DfsOutcome::Found;
                },
                DfsOutcome::NewBound(b) => {
                    if b < min_next {
                        min_next = b;
                    }
                },
                DfsOutcome::Exhausted => {},
            }
            path.pop();
            proof {
                assert(path@ =~= before);
            }
        }
        m = m + 1;
    }
    if min_next == 255 {
        DfsOutcome::Exhausted
    } else {
        DfsOutcome::NewBound(min_next)
    }
}

fn phase2_dfs(
    s: &Solver3x3,
    lk: &EdgeLookup,
    state: &State3x3,
    g: u8,
    bound: u8,
    last: Option<usize>,
    second_last: Option<usize>,
    path: &mut Vec<usize>,
) -> (r: DfsOutcome)
    requires
        s.wf(),
        lk.wf(),
        state_ok(*state),
        g <= bound + 1,
        bound <= MAX_PHASE2,
        last matches Some(p) ==> p < 10,
        second_last matches Some(p) ==> p < 10,
    ensures
        match r {
            DfsOutcome::Found => exists|suffix: Seq<usize>|
                #![trigger old(path)@ + suffix]
                final(path)@ == old(path)@ + suffix && (forall|k: int| 0 <= k < suffix.len() ==> suffix[k] < 10)
                    && solved_view(s.walk(view_of(*state), p2_ints(suffix))) && g + suffix.len() <= bound,
            DfsOutcome::NewBound(b) => b > bound && final(path)@ == old(path)@,
            DfsOutcome::Exhausted => final(path)@ == old(path)@,
        },
        g + phase2_estimate(s.pruning, *state) <= bound && is_solved_spec(*state) ==> (r is Found
            && final(path)@ == old(path)@),
    decreases bound + 1 - g,
{
    let h = s.phase2_heuristic(state);
    let f = g.saturating_add(h);
    if f > bound {
        return DfsOutcome::NewBound(f);
    }
    if state.is_solved() {
        proof {
            assert(old(path)@ + Seq::<usize>::empty() =~= old(path)@);
            assert(p2_ints(Seq::<usize>::empty()) =~= Seq::<int>::empty());
        }
        return DfsOutcome::Found;
    }
    let mut min_next: u8 = 255;
    let mut m: usize = 0;
    while m < 10
        invariant
            s.wf(),
            lk.wf(),
            state_ok(*state),
            g <= bound,
            bound <= MAX_PHASE2,
            !is_solved_spec(*state),
            last matches Some(p) ==> p < 10,
            second_last matches Some(p) ==> p < 10,
            path@ == old(path)@,
            min_next > bound,
            m <= 10,
        decreases 10 - m,
    {
        if pruning_allowed(last, second_last, m, true) {
            let p1 = phase2_to_phase1(m);
            let next = s.step_with(state, p1, lk);
            let ghost before = path@;
            path.push(m);
            match phase2_dfs(s, lk, &next, g + 1, bound, Some(m), last, path) {
                DfsOutcome::Found => {
                    proof {
                        let suffix = choose|suffix: Seq<usize>|
                            #![trigger before.push(m) + suffix]
                            path@ == before.push(m) + suffix && (forall|k: int| 0 <= k < suffix.len() ==> suffix[k] < 10)
                                && solved_view(s.walk(view_of(next), p2_ints(suffix))) && g + 1 + suffix.len() <= bound;
                        let full = seq![m] + suffix;
                        assert(before.push(m) + suffix =~= before + full);
                        assert(p2_ints(full) =~= seq![p1 as int] + p2_ints(suffix));
                        lemma_walk_front(s, view_of(*state), p1 as int, p2_ints(suffix));
                        assert(forall|k: int| 0 <= k < full.len() ==> full[k] < 10);
                    }
                    return DfsOutcome::Found;
                },
                DfsOutcome::NewBound(b) => {
                    if b < min_next {
                        min_next = b;
                    }
                },
                DfsOutcome::Exhausted => {},
            }
            path.pop();
            proof {
                assert(path@ =~= before);
            }
        }
        m = m + 1;
    }
    if min_next == 255 {
        DfsOutcome::Exhausted
    } else {
        DfsOutcome::NewBound(min_next)
    }
}

impl Solver3x3 {
    /// Iterative deepening into `G1`, up to depth 12.
    pub fn phase1_search(&self, state: &State3x3) -> (r: Option<Vec<usize>>)
        requires
            self.wf(),
            state_ok(*state),
        ensures
            r matches Some(p) ==> (forall|k: int| 0 <= k < p@.len() ==> p@[k] < 18) && in_g1_view(
                self.walk(view_of(*state), p1_ints(p@)),
            ) && p@.len() <= MAX_PHASE1,
            phase1_estimate(self.pruning, *state) > MAX_PHASE1 ==> r is None,
            in_g1(*state) && phase1_estimate(self.pruning, *state) <= MAX_PHASE1 ==> (r matches Some(p) && p@.len()
                == 0),
    {
        let lk = EdgeLookup::new();
        let mut bound = self.phase1_bound(state, &lk);
        while bound <= MAX_PHASE1
            invariant
                self.wf(),
                lk.wf(),
                state_ok(*state),
                in_g1(*state) && phase1_estimate(self.pruning, *state) <= MAX_PHASE1 ==> bound
                    == phase1_estimate(self.pruning, *state),
                phase1_estimate(self.pruning, *state) > MAX_PHASE1 ==> bound > MAX_PHASE1,
            decreases MAX_PHASE1 + 1 - bound,
        {
            let mut path: Vec<usize> = Vec::new();
            match phase1_dfs(self, &lk, state, 0, bound, None, None, &mut path) {
                DfsOutcome::Found => {
                    proof {
                        let suffix = choose|suffix: Seq<usize>|
                            #![trigger Seq::<usize>::empty() + suffix]
                            path@ == Seq::<usize>::empty() + suffix && (forall|k: int| 0 <= k < suffix.len() ==> suffix[k] < 18)
                                && in_g1_view(self.walk(view_of(*state), p1_ints(suffix))) && suffix.len() <= bound;
                        assert(Seq::<usize>::empty() + suffix =~= suffix);
                    }
                    return Some(path);
                },
                DfsOutcome::NewBound(b) => {
                    if b > MAX_PHASE1 {
                        return None;
                    }
                    bound = b;
                },
                DfsOutcome::Exhausted => {
                    return None;
                },
            }
        }
        None
    }

    /// Iterative deepening from `G1` to solved, up to depth 18.
    fn phase2_search(&self, state: &State3x3) -> (r: Option<Vec<usize>>)
        requires
            self.wf(),
            state_ok(*state),
        ensures
            r matches Some(p) ==> (forall|k: int| 0 <= k < p@.len() ==> p@[k] < 10) && solved_view(
                self.walk(view_of(*state), p2_ints(p@)),
            ) && p@.len() <= MAX_PHASE2,
            phase2_estimate(self.pruning, *state) > MAX_PHASE2 ==> r is None,
            is_solved_spec(*state) && phase2_estimate(self.pruning, *state) <= MAX_PHASE2 ==> (r matches Some(p)
                && p@.len() == 0),
    {
        let lk = EdgeLookup::new();
        let mut bound = self.phase2_heuristic(state);
        while bound <= MAX_PHASE2
            invariant
                self.wf(),
                lk.wf(),
                state_ok(*state),
                is_solved_spec(*state) && phase2_estimate(self.pruning, *state) <= MAX_PHASE2 ==> bound
                    == phase2_estimate(self.pruning, *state),
                phase2_estimate(self.pruning, *state) > MAX_PHASE2 ==> bound > MAX_PHASE2,
            decreases MAX_PHASE2 + 1 - bound,
        {
            let mut path: Vec<usize> = Vec::new();
            match phase2_dfs(self, &lk, state, 0, bound, None, None, &mut path) {
                DfsOutcome::Found => {
                    proof {
                        let suffix = choose|suffix: Seq<usize>|
                            #![trigger Seq::<usize>::empty() + suffix]
                            path@ == Seq::<usize>::empty() + suffix && (forall|k: int| 0 <= k < suffix.len() ==> suffix[k] < 10)
                                && solved_view(self.walk(view_of(*state), p2_ints(suffix))) && suffix.len() <= bound;
                        assert(Seq::<usize>::empty() + suffix =~= suffix);
                    }
                    return Some(path);
                },
                DfsOutcome::NewBound(b) => {
                    if b > MAX_PHASE2 {
                        return None;
                    }
                    bound = b;
                },
                DfsOutcome::Exhausted => {
                    return None;
                },
            }
        }
        None
    }

    /// Solve from a state: phase 1 into `G1`, phase 2 to solved, then
    /// cancellation of adjacent moves on one face.
    pub fn solve_state(&self, state: &State3x3) -> (r: Result<MoveSeq, Solve3x3Error>)
        requires
            self.wf(),
            state_ok(*state),
        ensures
            solved_view(view_of(*state)) ==> (r matches Ok(ms) && ms.0@.len() == 0),
            r matches Ok(ms) ==> is_solution(self, view_of(*state), ms.0@) && ms.0@.len() <= MAX_PHASE1 + MAX_PHASE2,
            r is Err ==> r == Err::<MoveSeq, Solve3x3Error>(Solve3x3Error::Phase1NoSolution) || r == Err::<
                MoveSeq,
                Solve3x3Error,
            >(Solve3x3Error::Phase2NoSolution),
    {
        if state.is_solved() {
            return Ok(MoveSeq::new());
        }
        let phase1_idx = match self.phase1_search(state) {
            Some(p) => p,
            None => {
                return Err(Solve3x3Error::Phase1NoSolution);
            },
        };
        let mut g1 = *state;
        let mut k: usize = 0;
        while k < phase1_idx.len()
            invariant
                self.wf(),
                state_ok(g1),
                forall|j: int| 0 <= j < phase1_idx@.len() ==> phase1_idx@[j] < 18,
                k <= phase1_idx@.len(),
                view_of(g1) == self.walk(view_of(*state), p1_ints(phase1_idx@.take(k as int))),
            decreases phase1_idx@.len() - k,
        {
            proof {
                assert(p1_ints(phase1_idx@.take(k + 1)).drop_last() =~= p1_ints(phase1_idx@.take(k as int)));
            }
            g1 = self.step(&g1, phase1_idx[k]);
            k = k + 1;
        }
        proof {
            assert(phase1_idx@.take(k as int) =~= phase1_idx@);
        }
        let phase2_idx = match self.phase2_search(&g1) {
            Some(p) => p,
            None => {
                return Err(Solve3x3Error::Phase2NoSolution);
            },
        };
        let mut moves: Vec<Move> = Vec::new();
        let mut k: usize = 0;
        while k < phase1_idx.len()
            invariant
                forall|j: int| 0 <= j < phase1_idx@.len() ==> phase1_idx@[j] < 18,
                k <= phase1_idx@.len(),
                moves@ =~= face_moves(p1_ints(phase1_idx@.take(k as int))),
            decreases phase1_idx@.len() - k,
        {
            let (f, t) = phase1_move_at(phase1_idx[k]);
            moves.push(Move::face(f, t));
            proof {
                assert(phase1_idx@.take(k + 1) =~= phase1_idx@.take(k as int).push(phase1_idx@[k as int]));
            }
            k = k + 1;
        }
        let mut k: usize = 0;
        while k < phase2_idx.len()
            invariant
                forall|j: int| 0 <= j < phase1_idx@.len() ==> phase1_idx@[j] < 18,
                forall|j: int| 0 <= j < phase2_idx@.len() ==> phase2_idx@[j] < 10,
                k <= phase2_idx@.len(),
                moves@ =~= face_moves(p1_ints(phase1_idx@) + p2_ints(phase2_idx@.take(k as int))),
            decreases phase2_idx@.len() - k,
        {
            let (f, t) = phase1_move_at(phase2_to_phase1(phase2_idx[k]));
            moves.push(Move::face(f, t));
            proof {
                assert(phase2_idx@.take(k + 1) =~= phase2_idx@.take(k as int).push(phase2_idx@[k as int]));
                assert(phase1_idx@.take(phase1_idx@.len() as int) =~= phase1_idx@);
            }
            k = k + 1;
        }
        proof {
            assert(phase2_idx@.take(k as int) =~= phase2_idx@);
            lemma_walk_concat(self, view_of(*state), p1_ints(phase1_idx@), p2_ints(phase2_idx@));
        }
        Ok(MoveSeq::from_vec(moves).cancel())
    }

    /// Solve a 3×3 cube.
    pub fn solve(&self, cube: &Cube) -> (r: Result<MoveSeq, Solve3x3Error>)
        requires
            self.wf(),
            cube.size == 3 ==> cube.wf() && kinds_match(cube.cubies@),
        ensures
            cube.size != 3 ==> r == Err::<MoveSeq, Solve3x3Error>(Solve3x3Error::WrongSize(cube.size)),
            cube.size == 3 && solved_view(cube_view(cube.cubies@)) ==> (r matches Ok(ms) && ms.0@.len() == 0),
            cube.size == 3 ==> (r matches Ok(ms) ==> is_solution(self, cube_view(cube.cubies@), ms.0@) && ms.0@.len()
                <= MAX_PHASE1 + MAX_PHASE2),
            cube.size == 3 && r is Err ==> r == Err::<MoveSeq, Solve3x3Error>(Solve3x3Error::Phase1NoSolution) || r
                == Err::<MoveSeq, Solve3x3Error>(Solve3x3Error::Phase2NoSolution),
            cube.size == 3 && all_consistent(cube.cubies@) ==> (r matches Ok(ms) ==> solved_view(
                cube_view(run_moves(cube.cubies@, ms.0@, 3)),
            )),
    {
        if cube.size != 3 {
            return Err(Solve3x3Error::WrongSize(cube.size));
        }
        let state = State3x3::from_cube(cube);
        proof {
            crate::three::state::lemma_cube_state_ok(cube.cubies@);
            assert(state.corners.orient@ == crate::three::state::cube_corners(cube.cubies@).1);
            assert(state.edges.perm@ == crate::three::state::cube_edges(cube.cubies@).0);
            assert(state.edges.rot@ == crate::three::state::cube_edges(cube.cubies@).2);
        }
        let r = self.solve_state(&state);
        proof {
            if all_consistent(cube.cubies@) && r is Ok {
                crate::three::tracking::lemma_solution_solves(self, cube.cubies@, r->Ok_0.0@);
            }
        }
        r
    }
}

} // verus!
