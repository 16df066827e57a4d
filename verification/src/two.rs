//! 2×2 solver.
//!
//! State space: 7! × 3^6 = 3,674,160 reachable states, with the DBL corner
//! fixed at home as the orientation reference. A full distance-from-solved
//! table is built by breadth-first search; a cube is then solved by always
//! stepping to a neighbour one move closer, so every solution is optimal.

use vstd::prelude::*;
use crate::cube::{
    Cube, Cubie, corner_twist, corner_twist_spec, position_parity, cubies_wf, on_shell,
    lattice_coord, lattice_pos, is_outer, visible_spec, solved_cubie, step_all, step_cubie,
    affected, occupied, lemma_step_keeps_wf, run_moves,
};
use crate::moves::{Face, Move, MoveSeq, Turn};
use crate::rank::{
    digit_rank, digits_from, digits_of, digits_rank, identity_pool, lex_rank, lex_unrank, perm_rank,
    unrank, factorial, pow,
};
use crate::vec3::{IVec3, ivec};
use crate::validation::{first_piece_at, first_piece_index};
use crate::two_tracking::{lemma_two_solution_solves, pieces_home, pocket_ok};

verus! {

/// Number of encoded states: `perm_idx (0..5040) * 729 + orient_idx (0..729)`.
pub const NUM_2X2_STATES: usize = 3674160;

/// God's number for the 2×2 in the half-turn metric.
pub const GODS_NUMBER_2X2: u8 = 11;

/// Table entry of a state the search never reached.
pub const UNREACHED: u8 = 255;

#[derive(Debug, Clone, PartialEq, Eq)]
pub enum Solve2x2Error {
    /// The cube is not a 2×2.
    WrongSize(u8),
    /// The DBL corner is not at home with identity orientation.
    DblNotHome,
    /// The cube state is not in the solver's reachable orbit.
    Unreachable,
    /// No neighbour one move closer was found.
    Internal,
}

/// Compact 2×2 state. The DBL corner is fixed and not stored; slots
/// `0..7` cover the seven mobile corners in the cube's piece order.
#[derive(Debug, Clone, Copy, PartialEq, Eq, Hash)]
pub struct State2x2 {
    /// `perm[slot]` = home slot index of the piece currently at `slot`.
    pub perm: [u8; 7],
    /// `orient[slot]` in `{0, 1, 2}`: parity-aware corner twist.
    pub orient: [u8; 7],
}

pub open spec fn zeros(n: int) -> Seq<u8> {
    Seq::new(n as nat, |i: int| 0u8)
}

/// Permutation entries below 7 and twists below 3.
pub open spec fn state_ok(s: State2x2) -> bool {
    forall|i: int| 0 <= i < 7 ==> s.perm@[i] < 7 && s.orient@[i] < 3
}

pub open spec fn index_spec(s: State2x2) -> int {
    perm_rank(s.perm@, 7, 7) * 729 + digits_rank(s.orient@, 3, 6)
}

pub open spec fn digit_sum(d: Seq<u8>, k: int) -> int
    decreases k,
{
    if k <= 0 {
        0
    } else {
        digit_sum(d, k - 1) + d[k - 1]
    }
}

/// The state with encoding `idx`: the last twist is whatever makes the
/// twist sum a multiple of 3.
pub open spec fn from_index_spec(idx: int) -> (Seq<u8>, Seq<u8>) {
    let o = digits_of(idx % 729, 3, 6);
    (unrank(idx / 729, identity_pool(7)), o.push(((3 - digit_sum(o, 6) % 3) % 3) as u8))
}

/// A state the encoding covers: the permutation lists `0..7` once each,
/// twists are below 3 and sum to a multiple of 3.
pub open spec fn state_valid(s: State2x2) -> bool {
    &&& s.perm@.no_duplicates()
    &&& forall|i: int| 0 <= i < 7 ==> s.perm@[i] < 7 && s.orient@[i] < 3
    &&& digit_sum(s.orient@, 7) % 3 == 0
}

proof fn lemma_digit_sum_prefix(a: Seq<u8>, b: Seq<u8>, k: int)
    requires
        0 <= k,
        forall|i: int| 0 <= i < k ==> a[i] == b[i],
    ensures
        digit_sum(a, k) == digit_sum(b, k),
    decreases k,
{
    if k > 0 {
        lemma_digit_sum_prefix(a, b, k - 1);
    }
}

/// A permutation of `0..7` with twists below 3 summing to a multiple of 3.
pub open spec fn seqs_valid(p: Seq<u8>, o: Seq<u8>) -> bool {
    &&& p.len() == 7
    &&& o.len() == 7
    &&& p.no_duplicates()
    &&& forall|i: int| 0 <= i < 7 ==> p[i] < 7 && o[i] < 3
    &&& digit_sum(o, 7) % 3 == 0
}

/// Decoding the encoding of a valid permutation and twists gives them back.
pub proof fn lemma_seqs_round_trip(perm: Seq<u8>, d: Seq<u8>)
    requires
        seqs_valid(perm, d),
    ensures
        from_index_spec(encode_seqs(perm, d)) == (perm, d),
{
    let p = perm_rank(perm, 7, 7);
    let o = digits_rank(d, 3, 6);
    crate::rank::lemma_perm_rank_bound(perm, 7, 7);
    crate::rank::lemma_falling_factorial(7, 7);
    crate::rank::lemma_small_factorials();
    assert(factorial(0) == 1);
    crate::rank::lemma_digits_rank_bound(d, 3, 6);
    assert(pow(3, 6) == 729) by {
        reveal_with_fuel(pow, 7);
    }
    let idx = encode_seqs(perm, d);
    assert(idx == p * 729 + o);
    assert(idx / 729 == p && idx % 729 == o) by (nonlinear_arith)
        requires
            idx == p * 729 + o,
            0 <= o < 729,
            0 <= p,
    ;
    crate::rank::lemma_unrank_rank(perm, 7);
    crate::rank::lemma_rank_digits(d, 3, 6);
    let od = digits_of(o, 3, 6);
    assert(od == d.take(6));
    lemma_digit_sum_prefix(od, d, 6);
    let last = ((3 - digit_sum(od, 6) % 3) % 3) as u8;
    assert(digit_sum(d, 7) == digit_sum(d, 6) + d[6]);
    assert(digit_sum(d, 6) >= 0) by {
        lemma_digit_sum_nonneg(d, 6);
    }
    assert(last == d[6]);
    assert(od.push(last) =~= d);
}

/// The base-`radix` digits of a number are below `radix`.
proof fn lemma_digits_below(v: int, radix: int, k: int)
    requires
        2 <= radix <= 256,
        v >= 0,
    ensures
        digits_of(v, radix, k).len() == if k < 0 { 0 } else { k },
        forall|i: int| 0 <= i < digits_of(v, radix, k).len() ==> #[trigger] digits_of(v, radix, k)[i] < radix,
    decreases k,
{
    if k > 0 {
        lemma_digits_below(v / radix, radix, k - 1);
        let d = digits_of(v / radix, radix, k - 1);
        assert forall|i: int| 0 <= i < digits_of(v, radix, k).len() implies #[trigger] digits_of(v, radix, k)[i]
            < radix by {
            if i < k - 1 {
                assert(digits_of(v, radix, k)[i] == d[i]);
            }
        }
    }
}

/// Every index below the number of states decodes to a valid permutation
/// and twists that encode back to the same index.
pub proof fn lemma_from_index_valid(idx: int)
    requires
        0 <= idx < NUM_2X2_STATES,
    ensures
        seqs_valid(from_index_spec(idx).0, from_index_spec(idx).1),
        encode_seqs(from_index_spec(idx).0, from_index_spec(idx).1) == idx,
{
    let q = idx / 729;
    let r = idx % 729;
    crate::rank::lemma_small_factorials();
    assert(factorial(7) == 5040);
    assert(0 <= q < 5040 && 0 <= r < 729 && idx == q * 729 + r) by (nonlinear_arith)
        requires
            0 <= idx < 5040 * 729,
            q == idx / 729,
            r == idx % 729,
    ;
    let pool = identity_pool(7);
    assert(pool.no_duplicates());
    crate::rank::lemma_unrank_is_perm(q, pool);
    crate::rank::lemma_rank_unrank(q, 7);
    let p = unrank(q, pool);
    assert forall|k: int| 0 <= k < 7 implies #[trigger] p[k] < 7 by {
        assert(pool.contains(p[k]));
    }
    assert(pow(3, 6) == 729) by {
        reveal_with_fuel(pow, 7);
    }
    crate::rank::lemma_digits_round_trip(r, 3, 6);
    lemma_digits_below(r, 3, 6);
    let od = digits_of(r, 3, 6);
    let last = ((3 - digit_sum(od, 6) % 3) % 3) as u8;
    let o = od.push(last);
    assert(from_index_spec(idx) == (p, o));
    lemma_digit_sum_prefix(od, o, 6);
    assert(digit_sum(o, 7) == digit_sum(o, 6) + o[6]);
    assert(digit_sum(od, 6) >= 0) by {
        lemma_digit_sum_nonneg(od, 6);
    }
    crate::rank::lemma_digits_rank_push(od, last, 3, 6);
    assert forall|k: int| 0 <= k < 7 implies #[trigger] o[k] < 3 by {
        if k < 6 {
            assert(o[k] == od[k]);
        }
    }
}

/// Decoding a state's index gives the state back.
pub proof fn lemma_index_round_trip(s: State2x2)
    requires
        state_valid(s),
    ensures
        from_index_spec(index_spec(s)) == (s.perm@, s.orient@),
{
    lemma_seqs_round_trip(s.perm@, s.orient@);
}

proof fn lemma_digit_sum_nonneg(d: Seq<u8>, k: int)
    ensures
        digit_sum(d, k) >= 0,
    decreases k,
{
    if k > 0 {
        lemma_digit_sum_nonneg(d, k - 1);
    }
}

/// Slot-level move: `perm[s]` = source slot of the piece that lands at `s`,
/// `orient[s]` = twist added to it (mod 3).
#[derive(Debug, Clone, Copy)]
pub struct MoveOp {
    pub perm: [u8; 7],
    pub orient: [u8; 7],
}

pub open spec fn op_ok(op: MoveOp) -> bool {
    forall|i: int| 0 <= i < 7 ==> op.perm@[i] < 7 && op.orient@[i] < 3
}

/// Permutation after the move.
pub open spec fn op_perm(s: State2x2, op: MoveOp) -> Seq<u8> {
    Seq::new(7, |i: int| s.perm@[op.perm@[i] as int])
}

/// Twists after the move.
pub open spec fn op_orient(s: State2x2, op: MoveOp) -> Seq<u8> {
    Seq::new(7, |i: int| ((s.orient@[op.perm@[i] as int] + op.orient@[i]) % 3) as u8)
}

impl State2x2 {
    pub fn solved() -> (r: Self)
        ensures
            r.perm@ == identity_pool(7),
            r.orient@ == zeros(7),
    {
        let r = Self { perm: [0, 1, 2, 3, 4, 5, 6], orient: [0, 0, 0, 0, 0, 0, 0] };
        proof {
            assert(r.perm@ =~= identity_pool(7));
            assert(r.orient@ =~= zeros(7));
        }
        r
    }

    pub fn is_solved(&self) -> (r: bool)
        ensures
            r == (self.perm@ == identity_pool(7) && self.orient@ == zeros(7)),
    {
        let mut i: usize = 0;
        while i < 7
            invariant
                i <= 7,
                forall|j: int| 0 <= j < i ==> self.perm@[j] == j && self.orient@[j] == 0,
            decreases 7 - i,
        {
            if self.perm[i] != i as u8 || self.orient[i] != 0 {
                proof {
                    assert(self.perm@[i as int] != identity_pool(7)[i as int] || self.orient@[i as int] != zeros(7)[i as int]);
                }
                return false;
            }
            i = i + 1;
        }
        proof {
            assert(self.perm@ =~= identity_pool(7));
            assert(self.orient@ =~= zeros(7));
        }
        true
    }

    /// Encode to an index: Lehmer rank of the permutation times 729 plus
    /// the first six twists in base 3.
    pub fn index(&self) -> (r: u32)
        ensures
            r == index_spec(*self),
            state_ok(*self) ==> r < NUM_2X2_STATES,
    {
        let perm_idx = lex_rank(&self.perm);
        let orient_idx = digit_rank(&self.orient, 3, 6);
        proof {
            reveal_with_fuel(factorial, 8);
            reveal_with_fuel(pow, 7);
            assert(orient_idx <= 255 * 728) by {
                crate::rank::lemma_digits_rank_loose(self.orient@, 3, 6);
            }
        }
        perm_idx * 729 + orient_idx
    }

    /// Decode an index back into a state.
    pub fn from_index(idx: u32) -> (r: Self)
        requires
            idx < NUM_2X2_STATES,
        ensures
            (r.perm@, r.orient@) == from_index_spec(idx as int),
            state_valid(r),
            index_spec(r) == idx,
    {
        proof {
            lemma_from_index_valid(idx as int);
        }
        proof {
            crate::rank::lemma_small_factorials();
            assert(factorial(7) == 5040);
        }
        let perm_idx = idx / 729;
        let orient_idx = idx % 729;
        let p = lex_unrank(perm_idx, 7);
        let o = digits_from(orient_idx, 3, 6);
        let mut sum: u32 = 0;
        let mut i: usize = 0;
        while i < 6
            invariant
                o@.len() == 6,
                forall|j: int| 0 <= j < 6 ==> o@[j] < 3,
                i <= 6,
                sum == digit_sum(o@, i as int),
                sum <= 2 * i,
            decreases 6 - i,
        {
            sum = sum + o[i] as u32;
            i = i + 1;
        }
        let last = ((3 - (sum % 3)) % 3) as u8;
        let perm = [p[0], p[1], p[2], p[3], p[4], p[5], p[6]];
        let orient = [o[0], o[1], o[2], o[3], o[4], o[5], last];
        proof {
            assert(perm@ =~= p@);
            assert(orient@ =~= o@.push(last));
        }
        Self { perm, orient }
    }

    /// The state after a slot-level move.
    pub fn apply_op(&self, op: &MoveOp) -> (r: Self)
        requires
            state_ok(*self),
            op_ok(*op),
        ensures
            r.perm@ == op_perm(*self, *op),
            r.orient@ == op_orient(*self, *op),
            state_ok(r),
    {
        let mut new_perm = [0u8; 7];
        let mut new_orient = [0u8; 7];
        let mut slot: usize = 0;
        while slot < 7
            invariant
                state_ok(*self),
                op_ok(*op),
                slot <= 7,
                forall|j: int| 0 <= j < slot ==> new_perm@[j] == op_perm(*self, *op)[j] && new_orient@[j]
                    == op_orient(*self, *op)[j],
            decreases 7 - slot,
        {
            let src = op.perm[slot] as usize;
            new_perm[slot] = self.perm[src];
            new_orient[slot] = (self.orient[src] + op.orient[slot]) % 3;
            slot = slot + 1;
        }
        proof {
            assert(new_perm@ =~= op_perm(*self, *op));
            assert(new_orient@ =~= op_orient(*self, *op));
        }
        Self { perm: new_perm, orient: new_orient }
    }
}

// ---------------------------------------------------------------------
// Reading a cube.
// ---------------------------------------------------------------------

/// Index of the first piece whose home is `p`, or -1.
pub open spec fn first_home_at(cs: Seq<Cubie>, p: IVec3) -> int
    decreases cs.len(),
{
    if cs.len() == 0 {
        -1
    } else {
        let k = first_home_at(cs.drop_last(), p);
        if k >= 0 {
            k
        } else if cs.last().solved_pos == p {
            cs.len() - 1
        } else {
            -1
        }
    }
}

/// The DBL corner sits at home with no rotation.
pub open spec fn dbl_home(c: Cubie) -> bool {
    c.solved_pos == ivec(-1, -1, -1) && c.current_pos == c.solved_pos && c.orientation.0 == 0
}

/// Index of the piece sitting at the home of piece `slot + 1`.
pub open spec fn slot_piece(cs: Seq<Cubie>, slot: int) -> int {
    first_piece_at(cs, cs[slot + 1].solved_pos)
}

pub open spec fn slots_filled(cs: Seq<Cubie>) -> bool {
    forall|slot: int| 0 <= slot < 7 ==> #[trigger] slot_piece(cs, slot) >= 0
}

pub open spec fn cube_perm(cs: Seq<Cubie>) -> Seq<u8> {
    Seq::new(7, |slot: int| (first_home_at(cs, cs[slot_piece(cs, slot)].solved_pos) - 1) as u8)
}

pub open spec fn cube_orient(cs: Seq<Cubie>) -> Seq<u8> {
    Seq::new(7, |slot: int| corner_twist_spec(cs[slot_piece(cs, slot)]))
}

/// No two pieces share a home.
pub open spec fn distinct_homes(cs: Seq<Cubie>) -> bool {
    forall|i: int, j: int|
        0 <= i < cs.len() && 0 <= j < cs.len() && i != j ==> cs[i].solved_pos != cs[j].solved_pos
}

pub proof fn lemma_first_home_found(cs: Seq<Cubie>, k: int)
    requires
        0 <= k < cs.len(),
        distinct_homes(cs),
    ensures
        first_home_at(cs, cs[k].solved_pos) == k,
    decreases cs.len(),
{
    if k < cs.len() - 1 {
        let d = cs.drop_last();
        assert(d[k] == cs[k]);
        lemma_first_home_found(d, k);
    } else {
        lemma_first_home_absent(cs.drop_last(), cs[k].solved_pos);
    }
}

proof fn lemma_first_home_absent(cs: Seq<Cubie>, p: IVec3)
    requires
        forall|i: int| 0 <= i < cs.len() ==> (#[trigger] cs[i]).solved_pos != p,
    ensures
        first_home_at(cs, p) == -1,
    decreases cs.len(),
{
    if cs.len() > 0 {
        lemma_first_home_absent(cs.drop_last(), p);
    }
}

pub proof fn lemma_first_piece_props(cs: Seq<Cubie>, p: IVec3)
    ensures
        first_piece_at(cs, p) >= 0 ==> first_piece_at(cs, p) < cs.len() && cs[first_piece_at(cs, p)].current_pos == p,
        first_piece_at(cs, p) < 0 ==> first_piece_at(cs, p) == -1,
    decreases cs.len(),
{
    if cs.len() > 0 {
        lemma_first_piece_props(cs.drop_last(), p);
    }
}

impl State2x2 {
    /// Read a state from a 2×2 cube whose DBL corner is at home.
    pub fn from_cube(cube: &Cube) -> (r: Result<Self, Solve2x2Error>)
        requires
            cube.wf(),
            distinct_homes(cube.cubies@),
            cube.size == 2 ==> cube.cubies@.len() >= 8,
        ensures
            match r {
                Ok(s) => cube.size == 2 && dbl_home(cube.cubies@[0]) && slots_filled(cube.cubies@)
                    && s.perm@ == cube_perm(cube.cubies@) && s.orient@ == cube_orient(cube.cubies@)
                    && (cube.cubies@.len() == 8 ==> state_ok(s)),
                Err(e) => if cube.size != 2 {
                    e == Solve2x2Error::WrongSize(cube.size)
                } else if !dbl_home(cube.cubies@[0]) {
                    e == Solve2x2Error::DblNotHome
                } else {
                    !slots_filled(cube.cubies@) && e == Solve2x2Error::Unreachable
                },
            },
    {
        if cube.size != 2 {
            return Err(Solve2x2Error::WrongSize(cube.size));
        }
        let ghost cs = cube.cubies@;
        let dbl = cube.cubies[0];
        if !(dbl.solved_pos.x == -1 && dbl.solved_pos.y == -1 && dbl.solved_pos.z == -1)
            || dbl.current_pos != dbl.solved_pos || dbl.orientation.0 != 0 {
            return Err(Solve2x2Error::DblNotHome);
        }
        let mut perm = [0u8; 7];
        let mut orient = [0u8; 7];
        let mut slot: usize = 0;
        while slot < 7
            invariant
                cube.wf(),
                cube.size == 2,
                cs == cube.cubies@,
                cs.len() >= 8,
                distinct_homes(cs),
                dbl_home(cs[0]),
                slot <= 7,
                forall|j: int| 0 <= j < slot ==> #[trigger] slot_piece(cs, j) >= 0,
                forall|j: int| 0 <= j < slot ==> perm@[j] == cube_perm(cs)[j] && orient@[j] == cube_orient(cs)[j],
                forall|j: int| 0 <= j < slot ==> orient@[j] < 3,
                cs.len() == 8 ==> forall|j: int| 0 <= j < slot ==> perm@[j] < 7,
            decreases 7 - slot,
        {
            let home_pos = cube.cubies[slot + 1].solved_pos;
            proof {
                lemma_first_piece_props(cs, home_pos);
            }
            let k = match first_piece_index(&cube.cubies, home_pos) {
                Some(k) => k,
                None => {
                    proof {
                        assert(slot_piece(cs, slot as int) < 0);
                    }
                    return Err(Solve2x2Error::Unreachable);
                },
            };
            let cubie = cube.cubies[k];
            proof {
                lemma_first_home_found(cs, k as int);
                assert(cs[(slot + 1) as int].orientation.0 < 24);
                assert(on_shell(cs[(slot + 1) as int].solved_pos, 2));
                assert(cs[k as int].orientation.0 < 24);
                assert(k != 0) by {
                    if k == 0 {
                        assert(cs[0].current_pos == ivec(-1, -1, -1));
                        assert(cs[(slot + 1) as int].solved_pos != cs[0].solved_pos);
                    }
                }
            }
            perm[slot] = (k - 1) as u8;
            orient[slot] = corner_twist(&cubie);
            slot = slot + 1;
        }
        proof {
            assert(perm@ =~= cube_perm(cs));
            assert(orient@ =~= cube_orient(cs));
        }
        Ok(Self { perm, orient })
    }
}

// ---------------------------------------------------------------------
// Move operations, derived by simulating each move on a solved cube.
// ---------------------------------------------------------------------

/// The solver's nine moves: `R U F` crossed with `Cw Half Ccw`.
pub open spec fn alphabet_move(i: int) -> Move {
    let face = if i / 3 == 0 {
        Face::R
    } else if i / 3 == 1 {
        Face::U
    } else {
        Face::F
    };
    let turn = if i % 3 == 0 {
        Turn::Cw
    } else if i % 3 == 1 {
        Turn::Half
    } else {
        Turn::Ccw
    };
    Move { face, turn, depth: 1, wide: false }
}

fn alphabet_entry(i: usize) -> (r: Move)
    requires
        i < 9,
    ensures
        r == alphabet_move(i as int),
{
    let face = if i / 3 == 0 {
        Face::R
    } else if i / 3 == 1 {
        Face::U
    } else {
        Face::F
    };
    let turn = if i % 3 == 0 {
        Turn::Cw
    } else if i % 3 == 1 {
        Turn::Half
    } else {
        Turn::Ccw
    };
    Move::face(face, turn)
}

pub open spec fn solved_two() -> Seq<Cubie> {
    visible_spec(2).map_values(|p: IVec3| solved_cubie(p))
}

proof fn lemma_filter_all<A>(s: Seq<A>, pred: spec_fn(A) -> bool)
    requires
        forall|i: int| 0 <= i < s.len() ==> pred(s[i]),
    ensures
        s.filter(pred) == s,
    decreases s.len(),
{
    reveal(Seq::filter);
    if s.len() > 0 {
        lemma_filter_all(s.drop_last(), pred);
        assert(s.drop_last().push(s.last()) =~= s);
    }
}

/// All eight lattice points of a 2×2 are visible, in lexicographic order.
pub(crate) proof fn lemma_visible_two()
    ensures
        visible_spec(2).len() == 8,
        forall|i: int| 0 <= i < 8 ==> #[trigger] visible_spec(2)[i] == lattice_pos(2, i),
        visible_spec(2)[0] == ivec(-1, -1, -1),
        forall|i: int, j: int|
            0 <= i < 8 && 0 <= j < 8 && i != j ==> visible_spec(2)[i] != visible_spec(2)[j],
{
    let full = Seq::new(8, |i: int| lattice_pos(2, i));
    assert(2 * 2 * 2 == 8);
    assert forall|i: int| 0 <= i < full.len() implies (|p: IVec3| is_outer(p, 2))(full[i]) by {
        assert(0 <= i / 4 < 2);
    }
    lemma_filter_all(full, |p: IVec3| is_outer(p, 2));
    assert(visible_spec(2) == full);
    assert forall|i: int, j: int|
        0 <= i < 8 && 0 <= j < 8 && i != j implies visible_spec(2)[i] != visible_spec(2)[j] by {
        assert(i == 4 * (i / 4) + 2 * ((i / 2) % 2) + i % 2);
        assert(j == 4 * (j / 4) + 2 * ((j / 2) % 2) + j % 2);
    }
}

pub proof fn lemma_first_piece_occupied(cs: Seq<Cubie>, p: IVec3)
    requires
        occupied(cs, p),
    ensures
        first_piece_at(cs, p) >= 0,
    decreases cs.len(),
{
    let k = choose|k: int| 0 <= k < cs.len() && (#[trigger] cs[k]).current_pos == p;
    if k < cs.len() - 1 {
        assert(cs.drop_last()[k] == cs[k]);
        lemma_first_piece_occupied(cs.drop_last(), p);
    }
}

/// One of the nine moves applied to a solved 2×2 leaves DBL at home and
/// gives a state the solver can read.
proof fn lemma_move_from_solved(i: int)
    requires
        0 <= i < 9,
    ensures
        ({
            let cs = step_all(solved_two(), alphabet_move(i), 2);
            &&& cubies_wf(cs, 2)
            &&& cs.len() == 8
            &&& distinct_homes(cs)
            &&& dbl_home(cs[0])
            &&& slots_filled(cs)
        }),
{
    lemma_visible_two();
    let m = alphabet_move(i);
    let s0 = solved_two();
    crate::cube::lemma_solved_wf(2);
    lemma_step_keeps_wf(s0, m, 2);
    let cs = step_all(s0, m, 2);
    assert(s0[0] == solved_cubie(ivec(-1, -1, -1)));
    assert(!affected(m, 2, ivec(-1, -1, -1))) by {
        let coords = crate::moves::affected_coords_spec(m, 2);
        assert(coords.len() == 1);
        assert(coords[0] == 1);
    }
    assert(cs[0] == s0[0]);
    assert forall|a: int, b: int|
        0 <= a < cs.len() && 0 <= b < cs.len() && a != b implies cs[a].solved_pos != cs[b].solved_pos by {
        assert(cs[a].solved_pos == s0[a].solved_pos);
        assert(cs[b].solved_pos == s0[b].solved_pos);
    }
    assert forall|slot: int| 0 <= slot < 7 implies #[trigger] slot_piece(cs, slot) >= 0 by {
        assert(cs[slot + 1].orientation.0 < 24);
        lemma_first_piece_occupied(cs, cs[slot + 1].solved_pos);
    }
}

/// Slot-level operation and move for each of the nine solver moves.
pub fn derive_move_ops() -> (r: Vec<(MoveOp, Move)>)
    ensures
        r@.len() == 9,
        forall|i: int|
            0 <= i < 9 ==> {
                let cs = step_all(solved_two(), alphabet_move(i), 2);
                &&& (#[trigger] r@[i]).1 == alphabet_move(i)
                &&& r@[i].0.perm@ == cube_perm(cs)
                &&& r@[i].0.orient@ == cube_orient(cs)
                &&& op_ok(r@[i].0)
            },
{
    let mut out: Vec<(MoveOp, Move)> = Vec::new();
    let mut i: usize = 0;
    while i < 9
        invariant
            i <= 9,
            out@.len() == i,
            forall|j: int|
                0 <= j < i ==> {
                    let cs = step_all(solved_two(), alphabet_move(j), 2);
                    &&& (#[trigger] out@[j]).1 == alphabet_move(j)
                    &&& out@[j].0.perm@ == cube_perm(cs)
                    &&& out@[j].0.orient@ == cube_orient(cs)
                    &&& op_ok(out@[j].0)
                },
        decreases 9 - i,
    {
        let m = alphabet_entry(i);
        proof {
            lemma_move_from_solved(i as int);
            crate::cube::lemma_solved_wf(2);
        }
        let mut cube = match Cube::solved(2) {
            Ok(c) => c,
            Err(_) => {
                proof {
                    assert(false);
                }
                return out;
            },
        };
        proof {
            crate::cube::lemma_wf_pieces_ok(cube.cubies@, 2);
        }
        match cube.apply(m) {
            Ok(()) => {},
            Err(_) => {
                proof {
                    assert(false);
                }
                return out;
            },
        }
        let s = match State2x2::from_cube(&cube) {
            Ok(s) => s,
            Err(_) => {
                proof {
                    assert(false);
                }
                return out;
            },
        };
        out.push((MoveOp { perm: s.perm, orient: s.orient }, m));
        i = i + 1;
    }
    out
}

// ---------------------------------------------------------------------
// The distance table and the solver.
// ---------------------------------------------------------------------

/// Encoding of a permutation and twists.
pub open spec fn encode_seqs(p: Seq<u8>, o: Seq<u8>) -> int {
    perm_rank(p, 7, 7) * 729 + digits_rank(o, 3, 6)
}

/// Encoding of the solved state.
pub open spec fn solved_index() -> int {
    encode_seqs(identity_pool(7), zeros(7))
}

proof fn lemma_identity_counts(i: int, j: int)
    requires
        0 <= i,
        j <= 7,
    ensures
        crate::rank::count_less_after(identity_pool(7), i, j) == 0,
    decreases j - i,
{
    if j > i + 1 {
        lemma_identity_counts(i, j - 1);
    }
}

proof fn lemma_identity_rank(k: int)
    requires
        0 <= k <= 7,
    ensures
        perm_rank(identity_pool(7), 7, k) == 0,
        digits_rank(zeros(7), 3, if k <= 6 { k } else { 6 }) == 0,
    decreases k,
{
    if k > 0 {
        lemma_identity_rank(k - 1);
        lemma_identity_counts(k - 1, 7);
    }
}

/// The solved state encodes to 0.
pub proof fn lemma_solved_index_zero()
    ensures
        solved_index() == 0,
{
    lemma_identity_rank(7);
    lemma_identity_rank(6);
}

/// A valid state encodes below the number of states.
pub proof fn lemma_index_bound(s: State2x2)
    requires
        state_ok(s),
    ensures
        0 <= index_spec(s) < NUM_2X2_STATES,
{
    lemma_encode_bound(s.perm@, s.orient@);
}

/// The encoding of a permutation and twists in range lies below the
/// number of states.
pub proof fn lemma_encode_bound(p: Seq<u8>, o: Seq<u8>)
    requires
        p.len() == 7,
        o.len() == 7,
        forall|i: int| 0 <= i < 7 ==> p[i] < 7 && o[i] < 3,
    ensures
        0 <= encode_seqs(p, o) < NUM_2X2_STATES,
{
    crate::rank::lemma_perm_rank_bound(p, 7, 7);
    crate::rank::lemma_falling_factorial(7, 7);
    crate::rank::lemma_small_factorials();
    crate::rank::lemma_digits_rank_bound(o, 3, 6);
    assert(factorial(0) == 1);
    assert(pow(3, 6) == 729) by {
        reveal_with_fuel(pow, 7);
    }
    assert(perm_rank(p, 7, 7) < 5040);
    assert(perm_rank(p, 7, 7) * 729 + digits_rank(o, 3, 6) < 5040 * 729) by (nonlinear_arith)
        requires
            0 <= perm_rank(p, 7, 7) < 5040,
            0 <= digits_rank(o, 3, 6) < 729,
    ;
}

/// Breadth-first distances from solved over the slot-level moves, with
/// [`UNREACHED`] for states never reached. The search stops after 254
/// levels, where the table's `u8` entries run out.
fn build_distance_table(move_ops: &Vec<(MoveOp, Move)>) -> (r: Vec<u8>)
    requires
        forall|k: int| 0 <= k < move_ops@.len() ==> op_ok(#[trigger] move_ops@[k].0),
        ops_from_solved(move_ops@),
    ensures
        r@.len() == NUM_2X2_STATES,
        r@[solved_index()] == 0,
        forall|i: int| 0 <= i < r@.len() && i != solved_index() ==> r@[i] != 0,
        descent_ok(r@, move_ops@),
        neighbors_ok(r@, move_ops@, 254),
{
    let mut distances: Vec<u8> = vec![UNREACHED; NUM_2X2_STATES];
    let solved = State2x2::solved();
    proof {
        lemma_solved_index_zero();
        assert(state_ok(solved));
    }
    let sidx = solved.index() as usize;
    distances.set(sidx, 0);
    let mut frontier: Vec<State2x2> = Vec::new();
    frontier.push(solved);
    proof {
        crate::two_tracking::lemma_ops_ok(move_ops@, 0);
        assert(descent_ok(distances@, move_ops@)) by {
            reveal(descent_ok);
            assert forall|x: State2x2| #![trigger distances@[index_spec(x)]]
                state_valid(x) && 0 < distances@[index_spec(x)] && distances@[index_spec(x)] != UNREACHED implies false by {
                lemma_index_bound(x);
            }
        }
        assert(state_valid(solved)) by {
            reveal_with_fuel(digit_sum, 8);
            assert(solved.perm@.no_duplicates());
        }
        assert(neighbors_ok(distances@, move_ops@, 0)) by {
            reveal(neighbors_ok);
        }
        assert(level_listed(distances@, frontier@, 0)) by {
            assert forall|p: Seq<u8>, o: Seq<u8>| #![trigger distances@[encode_seqs(p, o)]]
                seqs_valid(p, o) && distances@[encode_seqs(p, o)] == 0 implies exists|j: int|
                0 <= j < frontier@.len() && (#[trigger] frontier@[j]).perm@ == p && frontier@[j].orient@ == o by {
                lemma_encode_bound(p, o);
                lemma_seqs_round_trip(p, o);
                lemma_index_round_trip(solved);
                assert(frontier@[0] == solved);
            }
        }
    }
    let mut dist: u8 = 0;
    while frontier.len() > 0 && dist < 254
        invariant
            forall|k: int| 0 <= k < move_ops@.len() ==> op_ok(#[trigger] move_ops@[k].0),
            move_ops@.len() == 9,
            sidx == solved_index(),
            sidx == 0,
            distances@.len() == NUM_2X2_STATES,
            distances@[sidx as int] == 0,
            forall|i: int| 0 <= i < distances@.len() && i != sidx ==> distances@[i] != 0,
            forall|k: int| 0 <= k < frontier@.len() ==> state_ok(#[trigger] frontier@[k]),
            ops_from_solved(move_ops@),
            descent_ok(distances@, move_ops@),
            dist <= 254,
            forall|k: int|
                0 <= k < frontier@.len() ==> state_valid(#[trigger] frontier@[k]) && distances@[index_spec(frontier@[k])]
                    == dist,
            forall|i: int| 0 <= i < distances@.len() ==> #[trigger] distances@[i] == UNREACHED || distances@[i] <= dist,
            neighbors_ok(distances@, move_ops@, dist as int),
            level_listed(distances@, frontier@, dist as int),
        decreases 254 - dist,
    {
        let mut next: Vec<State2x2> = Vec::new();
        proof {
            assert(level_listed(distances@, next@, dist + 1)) by {
                assert forall|p: Seq<u8>, o: Seq<u8>| #![trigger distances@[encode_seqs(p, o)]]
                    seqs_valid(p, o) && distances@[encode_seqs(p, o)] == dist + 1 implies exists|j: int|
                    0 <= j < next@.len() && (#[trigger] next@[j]).perm@ == p && next@[j].orient@ == o by {
                    lemma_encode_bound(p, o);
                }
            }
        }
        let mut f: usize = 0;
        while f < frontier.len()
            invariant
                forall|k: int| 0 <= k < move_ops@.len() ==> op_ok(#[trigger] move_ops@[k].0),
                move_ops@.len() == 9,
                sidx == solved_index(),
                sidx == 0,
                dist < 254,
                distances@.len() == NUM_2X2_STATES,
                distances@[sidx as int] == 0,
                forall|i: int| 0 <= i < distances@.len() && i != sidx ==> distances@[i] != 0,
                forall|k: int| 0 <= k < frontier@.len() ==> state_ok(#[trigger] frontier@[k]),
                forall|k: int| 0 <= k < next@.len() ==> state_ok(#[trigger] next@[k]),
                f <= frontier@.len(),
                ops_from_solved(move_ops@),
                descent_ok(distances@, move_ops@),
                forall|k: int|
                    0 <= k < frontier@.len() ==> state_valid(#[trigger] frontier@[k]) && distances@[index_spec(frontier@[k])]
                        == dist,
                forall|k: int|
                    0 <= k < next@.len() ==> state_valid(#[trigger] next@[k]) && distances@[index_spec(next@[k])]
                        == dist + 1,
                forall|i: int|
                    0 <= i < distances@.len() ==> #[trigger] distances@[i] == UNREACHED || distances@[i] <= dist + 1,
                neighbors_ok(distances@, move_ops@, dist as int),
                level_listed(distances@, frontier@, dist as int),
                level_listed(distances@, next@, dist + 1),
                forall|j: int, k: int|
                    0 <= j < f && 0 <= k < 9 ==> #[trigger] entry_after(
                        distances@,
                        frontier@[j].perm@,
                        frontier@[j].orient@,
                        move_ops@[k].0,
                    ) <= dist + 1,
            decreases frontier@.len() - f,
        {
            let state = frontier[f];
            let mut k: usize = 0;
            while k < move_ops.len()
                invariant
                    forall|k: int| 0 <= k < move_ops@.len() ==> op_ok(#[trigger] move_ops@[k].0),
                    state_ok(state),
                    state == frontier@[f as int],
                    f < frontier@.len(),
                    sidx == solved_index(),
                    sidx == 0,
                    dist < 254,
                    distances@.len() == NUM_2X2_STATES,
                    distances@[sidx as int] == 0,
                    forall|i: int| 0 <= i < distances@.len() && i != sidx ==> distances@[i] != 0,
                    forall|k: int| 0 <= k < next@.len() ==> state_ok(#[trigger] next@[k]),
                    k <= move_ops@.len(),
                    move_ops@.len() == 9,
                    ops_from_solved(move_ops@),
                    descent_ok(distances@, move_ops@),
                    state_valid(state),
                    distances@[index_spec(state)] == dist,
                    forall|k: int|
                        0 <= k < frontier@.len() ==> state_valid(#[trigger] frontier@[k]) && distances@[index_spec(
                            frontier@[k],
                        )] == dist,
                    forall|k: int|
                        0 <= k < next@.len() ==> state_valid(#[trigger] next@[k]) && distances@[index_spec(next@[k])]
                            == dist + 1,
                    forall|i: int|
                        0 <= i < distances@.len() ==> #[trigger] distances@[i] == UNREACHED || distances@[i] <= dist + 1,
                    neighbors_ok(distances@, move_ops@, dist as int),
                    level_listed(distances@, frontier@, dist as int),
                    level_listed(distances@, next@, dist + 1),
                    forall|j: int, kk: int|
                        0 <= j < f && 0 <= kk < 9 ==> #[trigger] entry_after(
                            distances@,
                            frontier@[j].perm@,
                            frontier@[j].orient@,
                            move_ops@[kk].0,
                        ) <= dist + 1,
                    forall|kk: int|
                        0 <= kk < k ==> #[trigger] entry_after(distances@, state.perm@, state.orient@, move_ops@[kk].0)
                            <= dist + 1,
                decreases move_ops@.len() - k,
            {
                let neighbor = state.apply_op(&move_ops[k].0);
                let idx = neighbor.index() as usize;
                proof {
                    assert(neighbor.perm@ =~= step_seqs(state.perm@, state.orient@, move_ops@[k as int].0).0);
                    assert(neighbor.orient@ =~= step_seqs(state.perm@, state.orient@, move_ops@[k as int].0).1);
                }
                if distances[idx] == UNREACHED {
                    assert(idx != sidx);
                    let ghost before = distances@;
                    let ghost before_next = next@;
                    proof {
                        crate::two_tracking::lemma_ops_ok(move_ops@, k as int);
                        crate::two_tracking::lemma_descent_set(distances@, move_ops@, state, k as int, neighbor, dist);
                        lemma_index_bound(state);
                        lemma_neighbors_set(distances@, move_ops@, dist as int, idx as int, (dist + 1) as u8);
                        lemma_level_set(distances@, frontier@, dist as int, idx as int, (dist + 1) as u8);
                        lemma_level_push(distances@, next@, (dist + 1) as u8, neighbor);
                    }
                    distances.set(idx, dist + 1);
                    next.push(neighbor);
                    proof {
                        assert forall|j: int| 0 <= j < frontier@.len() implies state_valid(#[trigger] frontier@[j])
                            && distances@[index_spec(frontier@[j])] == dist by {
                            lemma_index_bound(frontier@[j]);
                        }
                        assert forall|j: int| 0 <= j < next@.len() implies state_valid(#[trigger] next@[j])
                            && distances@[index_spec(next@[j])] == dist + 1 by {
                            if j < before_next.len() {
                                assert(next@[j] == before_next[j]);
                                lemma_index_bound(next@[j]);
                            }
                        }
                        assert forall|j: int, kk: int|
                            0 <= j < f && 0 <= kk < 9 implies #[trigger] entry_after(
                            distances@,
                            frontier@[j].perm@,
                            frontier@[j].orient@,
                            move_ops@[kk].0,
                        ) <= dist + 1 by {
                            crate::two_tracking::lemma_ops_ok(move_ops@, kk);
                            let (p1, o1) = step_seqs(frontier@[j].perm@, frontier@[j].orient@, move_ops@[kk].0);
                            lemma_encode_bound(p1, o1);
                            assert(entry_after(before, frontier@[j].perm@, frontier@[j].orient@, move_ops@[kk].0) <= dist + 1);
                        }
                        assert forall|kk: int| 0 <= kk <= k implies #[trigger] entry_after(
                            distances@,
                            state.perm@,
                            state.orient@,
                            move_ops@[kk].0,
                        ) <= dist + 1 by {
                            crate::two_tracking::lemma_ops_ok(move_ops@, kk);
                            let (p1, o1) = step_seqs(state.perm@, state.orient@, move_ops@[kk].0);
                            lemma_encode_bound(p1, o1);
                            if kk < k {
                                assert(entry_after(before, state.perm@, state.orient@, move_ops@[kk].0) <= dist + 1);
                            }
                        }
                    }
                } else {
                    proof {
                        lemma_index_bound(neighbor);
                        assert(entry_after(distances@, state.perm@, state.orient@, move_ops@[k as int].0) <= dist + 1);
                    }
                }
                k = k + 1;
            }
            f = f + 1;
        }
        proof {
            lemma_level_done(distances@, move_ops@, frontier@, dist as int);
        }
        frontier = next;
        dist = dist + 1;
    }
    proof {
        if dist < 254 {
            assert(frontier@ =~= Seq::<State2x2>::empty());
            lemma_levels_closed(distances@, move_ops@, dist as int);
        }
    }
    distances
}

/// The move of the solver alphabet at position `k`, if `m` is one.
pub open spec fn op_index_of(m: Move) -> int {
    let f = match m.face {
        Face::R => 0int,
        Face::U => 1int,
        _ => 2int,
    };
    let t = match m.turn {
        Turn::Cw => 0int,
        Turn::Half => 1int,
        Turn::Ccw => 2int,
    };
    f * 3 + t
}

/// Permutation and twists after applying the slot operations of `ms`.
pub open spec fn walk(ops: Seq<(MoveOp, Move)>, p: Seq<u8>, o: Seq<u8>, ms: Seq<Move>) -> (Seq<u8>, Seq<u8>)
    decreases ms.len(),
{
    if ms.len() == 0 {
        (p, o)
    } else {
        let (p1, o1) = walk(ops, p, o, ms.drop_last());
        let op = ops[op_index_of(ms.last())].0;
        (
            Seq::new(7, |i: int| p1[op.perm@[i] as int]),
            Seq::new(7, |i: int| ((o1[op.perm@[i] as int] + op.orient@[i]) % 3) as u8),
        )
    }
}

/// The nine slot operations, each read from a solved cube after the
/// alphabet move of its position.
#[verifier::opaque]
pub open spec fn ops_from_solved(ops: Seq<(MoveOp, Move)>) -> bool {
    &&& ops.len() == 9
    &&& forall|k: int|
        0 <= k < 9 ==> {
            let cs = step_all(solved_two(), alphabet_move(k), 2);
            &&& op_ok((#[trigger] ops[k]).0)
            &&& ops[k].1 == alphabet_move(k)
            &&& ops[k].0.perm@ == cube_perm(cs)
            &&& ops[k].0.orient@ == cube_orient(cs)
        }
}

/// Every valid state with a distance entry other than 0 and
/// [`UNREACHED`] has a move leading to a state one entry closer.
#[verifier::opaque]
pub open spec fn descent_ok(t: Seq<u8>, ops: Seq<(MoveOp, Move)>) -> bool {
    forall|s: State2x2|
        #![trigger t[index_spec(s)]]
        state_valid(s) && 0 < t[index_spec(s)] && t[index_spec(s)] != UNREACHED ==> exists|k: int|
            0 <= k < 9 && #[trigger] descent_entry(t, s, ops[k].0) == t[index_spec(s)] - 1
}

/// The permutation and twists after slot operation `op`.
pub open spec fn step_seqs(p: Seq<u8>, o: Seq<u8>, op: MoveOp) -> (Seq<u8>, Seq<u8>) {
    (
        Seq::new(7, |i: int| p[op.perm@[i] as int]),
        Seq::new(7, |i: int| ((o[op.perm@[i] as int] + op.orient@[i]) % 3) as u8),
    )
}

/// Table entry of the reading one slot operation after `(p, o)`.
pub open spec fn entry_after(t: Seq<u8>, p: Seq<u8>, o: Seq<u8>, op: MoveOp) -> u8 {
    t[encode_seqs(step_seqs(p, o, op).0, step_seqs(p, o, op).1)]
}

/// Every valid reading with an entry below `lim` has all nine neighbours
/// recorded at most one entry further.
#[verifier::opaque]
pub open spec fn neighbors_ok(t: Seq<u8>, ops: Seq<(MoveOp, Move)>, lim: int) -> bool {
    forall|p: Seq<u8>, o: Seq<u8>, k: int|
        seqs_valid(p, o) && 0 <= k < 9 && t[encode_seqs(p, o)] < lim ==> #[trigger] entry_after(t, p, o, ops[k].0)
            <= t[encode_seqs(p, o)] + 1
}

/// Every valid reading with entry `d` is one of `states`.
pub open spec fn level_listed(t: Seq<u8>, states: Seq<State2x2>, d: int) -> bool {
    forall|p: Seq<u8>, o: Seq<u8>|
        #![trigger t[encode_seqs(p, o)]]
        seqs_valid(p, o) && t[encode_seqs(p, o)] == d ==> exists|j: int|
            0 <= j < states.len() && (#[trigger] states[j]).perm@ == p && states[j].orient@ == o
}

/// Recording an entry at `idx`, where none was, above `lim` keeps the
/// neighbours of entries below `lim` recorded.
proof fn lemma_neighbors_set(t: Seq<u8>, ops: Seq<(MoveOp, Move)>, lim: int, idx: int, v: u8)
    requires
        neighbors_ok(t, ops, lim),
        ops_from_solved(ops),
        t.len() == NUM_2X2_STATES,
        0 <= idx < t.len(),
        t[idx] == UNREACHED,
        v >= lim,
        lim <= 254,
    ensures
        neighbors_ok(t.update(idx, v), ops, lim),
{
    reveal(neighbors_ok);
    let t2 = t.update(idx, v);
    assert forall|p: Seq<u8>, o: Seq<u8>, k: int|
        seqs_valid(p, o) && 0 <= k < 9 && t2[encode_seqs(p, o)] < lim implies #[trigger] entry_after(t2, p, o, ops[k].0)
        <= t2[encode_seqs(p, o)] + 1 by {
        lemma_encode_bound(p, o);
        crate::two_tracking::lemma_ops_ok(ops, k);
        let (p1, o1) = step_seqs(p, o, ops[k].0);
        lemma_encode_bound(p1, o1);
        assert(entry_after(t, p, o, ops[k].0) <= t[encode_seqs(p, o)] + 1);
    }
}

/// Recording an entry where none was keeps every entry that was recorded,
/// and so keeps a level listed when the new entry is not on that level.
proof fn lemma_level_set(t: Seq<u8>, states: Seq<State2x2>, d: int, idx: int, v: u8)
    requires
        level_listed(t, states, d),
        t.len() == NUM_2X2_STATES,
        0 <= idx < t.len(),
        t[idx] == UNREACHED,
        v != d,
    ensures
        level_listed(t.update(idx, v), states, d),
{
    let t2 = t.update(idx, v);
    assert forall|p: Seq<u8>, o: Seq<u8>| #![trigger t2[encode_seqs(p, o)]]
        seqs_valid(p, o) && t2[encode_seqs(p, o)] == d implies exists|j: int|
        0 <= j < states.len() && (#[trigger] states[j]).perm@ == p && states[j].orient@ == o by {
        lemma_encode_bound(p, o);
        assert(t[encode_seqs(p, o)] == d);
    }
}

/// Recording the entry of a new valid state and listing it keeps its
/// level listed.
proof fn lemma_level_push(t: Seq<u8>, states: Seq<State2x2>, d: u8, nb: State2x2)
    requires
        level_listed(t, states, d as int),
        t.len() == NUM_2X2_STATES,
        state_valid(nb),
        t[index_spec(nb)] == UNREACHED,
    ensures
        level_listed(t.update(index_spec(nb), d), states.push(nb), d as int),
{
    let idx = index_spec(nb);
    let t2 = t.update(idx, d);
    let s2 = states.push(nb);
    lemma_index_bound(nb);
    lemma_index_round_trip(nb);
    assert forall|p: Seq<u8>, o: Seq<u8>| #![trigger t2[encode_seqs(p, o)]]
        seqs_valid(p, o) && t2[encode_seqs(p, o)] == d implies exists|j: int|
        0 <= j < s2.len() && (#[trigger] s2[j]).perm@ == p && s2[j].orient@ == o by {
        lemma_encode_bound(p, o);
        if encode_seqs(p, o) == idx {
            lemma_seqs_round_trip(p, o);
            assert(s2[states.len() as int] == nb);
        } else {
            assert(t[encode_seqs(p, o)] == d);
            let j = choose|j: int| 0 <= j < states.len() && (#[trigger] states[j]).perm@ == p && states[j].orient@ == o;
            assert(s2[j] == states[j]);
        }
    }
}

/// Once every state of level `d` has had its neighbours recorded at most
/// one level further, the neighbours of all levels up to `d` are recorded.
proof fn lemma_level_done(t: Seq<u8>, ops: Seq<(MoveOp, Move)>, frontier: Seq<State2x2>, d: int)
    requires
        neighbors_ok(t, ops, d),
        level_listed(t, frontier, d),
        forall|j: int, k: int|
            0 <= j < frontier.len() && 0 <= k < 9 ==> #[trigger] entry_after(t, frontier[j].perm@, frontier[j].orient@, ops[k].0)
                <= d + 1,
    ensures
        neighbors_ok(t, ops, d + 1),
{
    reveal(neighbors_ok);
    assert forall|p: Seq<u8>, o: Seq<u8>, k: int|
        seqs_valid(p, o) && 0 <= k < 9 && t[encode_seqs(p, o)] < d + 1 implies #[trigger] entry_after(t, p, o, ops[k].0)
        <= t[encode_seqs(p, o)] + 1 by {
        if t[encode_seqs(p, o)] == d {
            let j = choose|j: int| 0 <= j < frontier.len() && (#[trigger] frontier[j]).perm@ == p && frontier[j].orient@ == o;
            assert(entry_after(t, frontier[j].perm@, frontier[j].orient@, ops[k].0) <= d + 1);
        }
    }
}

/// When no valid reading sits on level `d` and every entry is at most `d`
/// or missing, the neighbours of every entry below 254 are recorded.
proof fn lemma_levels_closed(t: Seq<u8>, ops: Seq<(MoveOp, Move)>, d: int)
    requires
        neighbors_ok(t, ops, d),
        level_listed(t, Seq::<State2x2>::empty(), d),
        forall|i: int| 0 <= i < t.len() ==> #[trigger] t[i] == UNREACHED || t[i] <= d,
        t.len() == NUM_2X2_STATES,
    ensures
        neighbors_ok(t, ops, 254),
{
    reveal(neighbors_ok);
    assert forall|p: Seq<u8>, o: Seq<u8>, k: int|
        seqs_valid(p, o) && 0 <= k < 9 && t[encode_seqs(p, o)] < 254 implies #[trigger] entry_after(t, p, o, ops[k].0)
        <= t[encode_seqs(p, o)] + 1 by {
        lemma_encode_bound(p, o);
        let x = t[encode_seqs(p, o)];
        assert(x == UNREACHED || x <= d);
        if x == d {
            assert(false);
        }
    }
}

/// A sequence of solver moves whose slot operations walk the reading
/// `(p, o)` to the solved encoding.
pub open spec fn is_two_solution(ops: Seq<(MoveOp, Move)>, p: Seq<u8>, o: Seq<u8>, ms: Seq<Move>) -> bool {
    &&& forall|j: int|
        0 <= j < ms.len() ==> 0 <= op_index_of(#[trigger] ms[j]) < 9 && ms[j] == alphabet_move(op_index_of(ms[j]))
    &&& ({
        let (p1, o1) = walk(ops, p, o, ms);
        encode_seqs(p1, o1) == solved_index()
    })
}

/// Table entry of the state a slot operation leads to from `s`.
pub open spec fn descent_entry(table: Seq<u8>, s: State2x2, op: MoveOp) -> u8 {
    table[encode_seqs(op_perm(s, op), op_orient(s, op))]
}

/// 2×2 solver holding the full distance table.
pub struct Solver2x2 {
    distances: Vec<u8>,
    move_ops: Vec<(MoveOp, Move)>,
}

impl Solver2x2 {
    pub closed spec fn wf(&self) -> bool {
        &&& self.distances@.len() == NUM_2X2_STATES
        &&& self.distances@[solved_index()] == 0
        &&& forall|i: int|
            0 <= i < self.distances@.len() && i != solved_index() ==> self.distances@[i] != 0
        &&& self.move_ops@.len() == 9
        &&& forall|k: int|
            0 <= k < 9 ==> op_ok(#[trigger] self.move_ops@[k].0) && self.move_ops@[k].1
                == alphabet_move(k)
        &&& forall|k: int|
            0 <= k < 9 ==> (#[trigger] self.move_ops@[k]).0.perm@ == cube_perm(
                step_all(solved_two(), alphabet_move(k), 2),
            ) && self.move_ops@[k].0.orient@ == cube_orient(step_all(solved_two(), alphabet_move(k), 2))
        &&& ops_from_solved(self.move_ops@)
        &&& descent_ok(self.distances@, self.move_ops@)
        &&& neighbors_ok(self.distances@, self.move_ops@, 254)
    }

    /// What the distance table keeps: the operations come from the solved
    /// cube, every entry has a descent, and the neighbours of every entry
    /// below 254 are recorded at most one entry further.
    pub proof fn lemma_table_facts(&self)
        requires
            self.wf(),
        ensures
            ops_from_solved(self.ops()),
            descent_ok(self.table(), self.ops()),
            neighbors_ok(self.table(), self.ops(), 254),
            self.table().len() == NUM_2X2_STATES,
            self.table()[solved_index()] == 0,
    {
    }

    /// The solver's slot operations are those its nine moves show on a
    /// solved cube.
    pub proof fn lemma_ops_read(&self)
        requires
            self.wf(),
        ensures
            self.ops().len() == 9,
            forall|k: int|
                0 <= k < 9 ==> {
                    let cs = step_all(solved_two(), alphabet_move(k), 2);
                    &&& (#[trigger] self.ops()[k]).1 == alphabet_move(k)
                    &&& op_ok(self.ops()[k].0)
                    &&& self.ops()[k].0.perm@ == cube_perm(cs)
                    &&& self.ops()[k].0.orient@ == cube_orient(cs)
                },
    {
    }

    pub closed spec fn table(&self) -> Seq<u8> {
        self.distances@
    }

    pub closed spec fn ops(&self) -> Seq<(MoveOp, Move)> {
        self.move_ops@
    }

    /// Build the distance table.
    pub fn new() -> (r: Self)
        ensures
            r.wf(),
    {
        let move_ops = derive_move_ops();
        proof {
            reveal(ops_from_solved);
        }
        let distances = build_distance_table(&move_ops);
        Self { distances, move_ops }
    }

    /// The distance table, indexed by state encoding.
    pub fn distances(&self) -> (r: &Vec<u8>)
        ensures
            r@ == self.table(),
    {
        &self.distances
    }

    /// True iff `state` lies in the orbit the search reached.
    pub fn is_reachable(&self, state: &State2x2) -> (r: bool)
        requires
            self.wf(),
            state_ok(*state),
        ensures
            r == (self.table()[index_spec(*state)] != UNREACHED),
    {
        self.distances[state.index() as usize] != UNREACHED
    }

    /// Distance from `state` to solved: the minimum move count.
    pub fn distance(&self, state: &State2x2) -> (r: Option<u8>)
        requires
            self.wf(),
            state_ok(*state),
        ensures
            r == (if self.table()[index_spec(*state)] == UNREACHED {
                None
            } else {
                Some(self.table()[index_spec(*state)])
            }),
    {
        let d = self.distances[state.index() as usize];
        if d == UNREACHED {
            None
        } else {
            Some(d)
        }
    }

    /// First move, in alphabet order, leading to a state at distance
    /// `dist - 1`, with that state.
    fn find_descent(&self, state: &State2x2, dist: u8) -> (r: Option<(usize, State2x2)>)
        requires
            self.wf(),
            state_ok(*state),
            dist > 0,
        ensures
            match r {
                Some((k, next)) => k < 9 && state_ok(next) && next.perm@ == op_perm(*state, self.ops()[k as int].0)
                    && next.orient@ == op_orient(*state, self.ops()[k as int].0)
                    && self.table()[index_spec(next)] == dist - 1
                    && forall|j: int| 0 <= j < k ==> #[trigger] descent_entry(self.table(), *state, self.ops()[j].0) != dist - 1,
                None => forall|j: int| 0 <= j < 9 ==> #[trigger] descent_entry(self.table(), *state, self.ops()[j].0) != dist - 1,
            },
    {
        let mut k: usize = 0;
        while k < self.move_ops.len()
            invariant
                self.wf(),
                state_ok(*state),
                dist > 0,
                k <= 9,
                forall|j: int| 0 <= j < k ==> #[trigger] descent_entry(self.table(), *state, self.ops()[j].0) != dist - 1,
            decreases 9 - k,
        {
            let next = state.apply_op(&self.move_ops[k].0);
            if self.distances[next.index() as usize] == dist - 1 {
                return Some((k, next));
            }
            k = k + 1;
        }
        None
    }

    /// Solve from a state by always stepping to the first neighbour, in
    /// alphabet order, one move closer to solved.
    pub fn solve_state(&self, start: &State2x2) -> (r: Result<MoveSeq, Solve2x2Error>)
        requires
            self.wf(),
            state_ok(*start),
        ensures
            match r {
                Ok(ms) => {
                    &&& self.table()[index_spec(*start)] != UNREACHED
                    &&& ms.0@.len() == self.table()[index_spec(*start)]
                    &&& is_two_solution(self.ops(), start.perm@, start.orient@, ms.0@)
                },
                Err(e) => (e == Solve2x2Error::Unreachable) == (self.table()[index_spec(*start)]
                    == UNREACHED) && (e == Solve2x2Error::Unreachable || e == Solve2x2Error::Internal),
            },
            state_valid(*start) && self.table()[index_spec(*start)] != UNREACHED ==> r is Ok,
            state_valid(*start) ==> (r matches Ok(ms) ==> forall|ms2: Seq<Move>|
                #[trigger] is_two_solution(self.ops(), start.perm@, start.orient@, ms2) ==> ms.0@.len() <= ms2.len()),
            state_valid(*start) && self.table()[index_spec(*start)] == UNREACHED ==> forall|ms2: Seq<Move>|
                #[trigger] is_two_solution(self.ops(), start.perm@, start.orient@, ms2) ==> ms2.len() >= 254,
    {
        proof {
            if state_valid(*start) {
                assert forall|ms2: Seq<Move>| #[trigger] is_two_solution(self.ops(), start.perm@, start.orient@, ms2)
                    && ms2.len() < 254 implies self.table()[index_spec(*start)] <= ms2.len() by {
                    crate::two_tracking::lemma_entry_lower_bound(self, start.perm@, start.orient@, ms2);
                }
            }
        }
        let mut state = *start;
        let mut dist = match self.distance(&state) {
            Some(d) => d,
            None => {
                return Err(Solve2x2Error::Unreachable);
            },
        };
        let ghost d0 = dist;
        let mut seq: Vec<Move> = Vec::new();
        while dist > 0
            invariant
                self.wf(),
                state_ok(state),
                dist == self.table()[index_spec(state)],
                seq@.len() + dist == d0,
                d0 == self.table()[index_spec(*start)],
                d0 != UNREACHED,
                forall|j: int|
                    0 <= j < seq@.len() ==> 0 <= op_index_of(#[trigger] seq@[j]) < 9 && seq@[j] == alphabet_move(
                        op_index_of(seq@[j]),
                    ),
                (state.perm@, state.orient@) == walk(self.ops(), start.perm@, start.orient@, seq@),
                state_valid(*start) ==> state_valid(state),
            decreases dist,
        {
            match self.find_descent(&state, dist) {
                None => {
                    proof {
                        if state_valid(*start) {
                            reveal(descent_ok);
                            lemma_index_bound(state);
                            assert(0 < self.distances@[index_spec(state)]);
                            let j = choose|j: int|
                                0 <= j < 9 && #[trigger] descent_entry(self.distances@, state, self.move_ops@[j].0)
                                    == self.distances@[index_spec(state)] - 1;
                            assert(descent_entry(self.table(), state, self.ops()[j].0) != dist - 1);
                        }
                    }
                    return Err(Solve2x2Error::Internal);
                },
                Some((k, next)) => {
                    proof {
                        if state_valid(*start) {
                            crate::two_tracking::lemma_op_keeps_valid(self.move_ops@, k as int, state, next);
                        }
                    }
                    let m = self.move_ops[k].1;
                    let ghost before = seq@;
                    proof {
                        assert(op_index_of(m) == k);
                    }
                    seq.push(m);
                    proof {
                        assert(seq@.drop_last() =~= before);
                        assert(next.perm@ =~= walk(self.ops(), start.perm@, start.orient@, seq@).0);
                        assert(next.orient@ =~= walk(self.ops(), start.perm@, start.orient@, seq@).1);
                    }
                    state = next;
                    dist = dist - 1;
                },
            }
        }
        proof {
            lemma_index_bound(state);
            assert(index_spec(state) == solved_index());
        }
        Ok(MoveSeq::from_vec(seq))
    }

    /// Solve a 2×2 cube whose DBL corner is at home.
    pub fn solve(&self, cube: &Cube) -> (r: Result<MoveSeq, Solve2x2Error>)
        requires
            self.wf(),
            cube.wf(),
            distinct_homes(cube.cubies@),
            cube.cubies@.len() == 8,
        ensures
            cube.size != 2 ==> r == Err::<MoveSeq, Solve2x2Error>(Solve2x2Error::WrongSize(cube.size)),
            cube.size == 2 && !dbl_home(cube.cubies@[0]) ==> r == Err::<MoveSeq, Solve2x2Error>(Solve2x2Error::DblNotHome),
            cube.size == 2 && dbl_home(cube.cubies@[0]) && !slots_filled(cube.cubies@) ==> r == Err::<
                MoveSeq,
                Solve2x2Error,
            >(Solve2x2Error::Unreachable),
            r is Ok ==> cube.size == 2 && dbl_home(cube.cubies@[0]) && slots_filled(cube.cubies@),
            r matches Ok(ms) ==> {
                let start = encode_seqs(cube_perm(cube.cubies@), cube_orient(cube.cubies@));
                &&& ms.0@.len() == self.table()[start]
                &&& is_two_solution(self.ops(), cube_perm(cube.cubies@), cube_orient(cube.cubies@), ms.0@)
            },
            cube.size == 2 && dbl_home(cube.cubies@[0]) && slots_filled(cube.cubies@) ==> (r == Err::<
                MoveSeq,
                Solve2x2Error,
            >(Solve2x2Error::Unreachable) <==> self.table()[encode_seqs(
                cube_perm(cube.cubies@),
                cube_orient(cube.cubies@),
            )] == UNREACHED),
            cube.size == 2 && pocket_ok(cube.cubies@) && digit_sum(cube_orient(cube.cubies@), 7) % 3 == 0 ==> (r matches Ok(
                ms,
            ) ==> pieces_home(run_moves(cube.cubies@, ms.0@, 2))),
            cube.size == 2 && pocket_ok(cube.cubies@) && digit_sum(cube_orient(cube.cubies@), 7) % 3 == 0
                && self.table()[encode_seqs(cube_perm(cube.cubies@), cube_orient(cube.cubies@))] != UNREACHED ==> r is Ok,
            cube.size == 2 && pocket_ok(cube.cubies@) && digit_sum(cube_orient(cube.cubies@), 7) % 3 == 0 ==> (r matches Ok(
                ms,
            ) ==> forall|ms2: Seq<Move>|
                #[trigger] is_two_solution(self.ops(), cube_perm(cube.cubies@), cube_orient(cube.cubies@), ms2)
                    ==> ms.0@.len() <= ms2.len()),
    {
        proof {
            if pocket_ok(cube.cubies@) {
                crate::two_tracking::lemma_pocket_reading(cube.cubies@);
            }
        }
        let state = match State2x2::from_cube(cube) {
            Ok(s) => s,
            Err(e) => {
                return Err(e);
            },
        };
        let r = self.solve_state(&state);
        proof {
            if r is Ok && pocket_ok(cube.cubies@) && digit_sum(cube_orient(cube.cubies@), 7) % 3 == 0 {
                lemma_two_solution_solves(self, cube.cubies@, r->Ok_0.0@);
            }
        }
        r
    }
}

} // verus!
