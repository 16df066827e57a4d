//! Cubie-level cube state: the source of truth for the simulation.

use vstd::prelude::*;
use vstd::arithmetic::div_mod::{lemma_fundamental_div_mod_converse, lemma_div_denominator};
use crate::error::CubeError;
use crate::moves::{
    Move, MoveSeq, Turn, affected_coords_spec, face_axis, lemma_move_rotation, move_inverse,
    move_rotation, seq_inverse,
};
use crate::orient::{
    Orient, apply_rot, compose_idx, inverse_idx, lemma_apply_bounded, lemma_apply_inverse,
    lemma_assoc_law, lemma_compose_idx_in_group, lemma_identity_law, lemma_inverse_idx_in_group,
    lemma_inverse_law, rot_from, rot_of, rot_sign,
};
use crate::vec3::{IVec3, bounded, comp, ivec};

verus! {

/// Smallest supported cube size.
pub const MIN_SIZE: u8 = 2;

/// Largest supported cube size.
pub const MAX_SIZE: u8 = 5;

/// A single physical sub-cube. Coordinates live on the integer lattice
/// `-(N-1)..=(N-1)` stepping by 2.
#[derive(Debug, Clone, Copy, PartialEq, Eq, Hash, Structural)]
pub struct Cubie {
    /// Home position; identifies the piece across moves.
    pub solved_pos: IVec3,
    /// Where the piece currently sits.
    pub current_pos: IVec3,
    /// Rotation applied to the piece relative to its home orientation.
    pub orientation: Orient,
}

pub open spec fn solved_cubie(pos: IVec3) -> Cubie {
    Cubie { solved_pos: pos, current_pos: pos, orientation: Orient(0) }
}

impl Cubie {
    pub fn solved_at(pos: IVec3) -> (r: Self)
        ensures
            r == solved_cubie(pos),
    {
        Self { solved_pos: pos, current_pos: pos, orientation: Orient(0) }
    }

    /// True iff the piece sits at home with no rotation applied.
    pub fn is_at_home(&self) -> (r: bool)
        ensures
            r == (self.solved_pos == self.current_pos && self.orientation.0 == 0),
    {
        self.solved_pos == self.current_pos && self.orientation.0 == 0
    }
}

#[derive(Debug, Clone, PartialEq, Eq, Hash)]
pub struct Cube {
    pub size: u8,
    /// Visible pieces only, sorted by `solved_pos` in lexicographic order.
    pub cubies: Vec<Cubie>,
}

// ---------------------------------------------------------------------
// Lattice geometry.
// ---------------------------------------------------------------------

pub open spec fn lattice_coord(c: int, n: int) -> bool {
    -(n - 1) <= c <= n - 1 && (c + n - 1) % 2 == 0
}

pub open spec fn in_lattice(p: IVec3, n: int) -> bool {
    lattice_coord(p.x as int, n) && lattice_coord(p.y as int, n) && lattice_coord(p.z as int, n)
}

/// Some coordinate lies on the outer shell.
pub open spec fn is_outer(p: IVec3, n: int) -> bool {
    p.x == n - 1 || p.x == -(n - 1) || p.y == n - 1 || p.y == -(n - 1) || p.z == n - 1 || p.z
        == -(n - 1)
}

/// A visible piece position on a size-`n` cube.
pub open spec fn on_shell(p: IVec3, n: int) -> bool {
    in_lattice(p, n) && is_outer(p, n)
}

/// Lattice point number `i` in `(x, y, z)` lexicographic order.
pub open spec fn lattice_pos(n: int, i: int) -> IVec3 {
    ivec(2 * (i / (n * n)) - (n - 1), 2 * ((i / n) % n) - (n - 1), 2 * (i % n) - (n - 1))
}

/// All visible positions of a size-`n` cube, in lexicographic order.
pub open spec fn visible_spec(n: int) -> Seq<IVec3> {
    Seq::new((n * n * n) as nat, |i: int| lattice_pos(n, i)).filter(|p: IVec3| is_outer(p, n))
}

/// A piece with a valid rotation index and coordinates that rotations
/// cannot overflow.
pub open spec fn piece_ok(c: Cubie) -> bool {
    c.orientation.0 < 24 && bounded(c.current_pos, 0x7fff_ffff)
}

pub open spec fn pieces_ok(cs: Seq<Cubie>) -> bool {
    forall|i: int| 0 <= i < cs.len() ==> piece_ok(#[trigger] cs[i])
}

pub open spec fn occupied(cs: Seq<Cubie>, p: IVec3) -> bool {
    exists|i: int| 0 <= i < cs.len() && (#[trigger] cs[i]).current_pos == p
}

/// Every visible position of the cube holds at least one piece, and every
/// piece has a valid rotation and sits on the shell.
pub open spec fn cubies_wf(cs: Seq<Cubie>, n: int) -> bool {
    &&& 2 <= n <= 5
    &&& forall|i: int|
        0 <= i < cs.len() ==> #[trigger] cs[i].orientation.0 < 24 && on_shell(
            cs[i].current_pos,
            n,
        ) && on_shell(cs[i].solved_pos, n)
    &&& forall|p: IVec3| #[trigger] on_shell(p, n) ==> occupied(cs, p)
}

impl Cube {
    pub open spec fn wf(&self) -> bool {
        cubies_wf(self.cubies@, self.size as int)
    }
}

// ---------------------------------------------------------------------
// Moves on cubies.
// ---------------------------------------------------------------------

/// A move turns the layer holding position `p`.
pub open spec fn affected(m: Move, n: int, p: IVec3) -> bool {
    affected_coords_spec(m, n).contains(comp(p, face_axis(m.face) as int) as i32)
}

/// The piece after a move.
pub open spec fn step_cubie(c: Cubie, m: Move, n: int) -> Cubie {
    if affected(m, n, c.current_pos) {
        Cubie {
            solved_pos: c.solved_pos,
            current_pos: apply_rot(rot_of(move_rotation(m)), c.current_pos),
            orientation: Orient(compose_idx(move_rotation(m), c.orientation.0 as int) as u8),
        }
    } else {
        c
    }
}

pub open spec fn step_all(cs: Seq<Cubie>, m: Move, n: int) -> Seq<Cubie> {
    cs.map_values(|c: Cubie| step_cubie(c, m, n))
}

/// The pieces after applying a sequence of moves in order.
pub open spec fn run_moves(cs: Seq<Cubie>, s: Seq<Move>, n: int) -> Seq<Cubie>
    decreases s.len(),
{
    if s.len() == 0 {
        cs
    } else {
        step_all(run_moves(cs, s.drop_last(), n), s.last(), n)
    }
}

/// A move whose depth fits the cube.
pub open spec fn valid_move(m: Move, n: int) -> bool {
    1 <= m.depth <= n
}

/// The error a move with an unusable depth produces.
pub open spec fn move_error(m: Move, n: u8) -> CubeError {
    if m.depth == 0 {
        CubeError::ZeroDepth
    } else {
        CubeError::DepthOutOfRange { depth: m.depth, size: n }
    }
}

pub(crate) proof fn lemma_rotation_keeps_axis(m: Move, p: IVec3)
    requires
        bounded(p, 0x7fff_ffff),
    ensures
        comp(apply_rot(rot_of(move_rotation(m)), p), face_axis(m.face) as int) == comp(
            p,
            face_axis(m.face) as int,
        ),
        bounded(apply_rot(rot_of(move_rotation(m)), p), 0x7fff_ffff),
{
    lemma_move_rotation(m);
    lemma_apply_bounded(move_rotation(m), p, 0x7fff_ffff);
}

/// A move keeps every piece valid.
pub proof fn lemma_step_keeps_piece_ok(c: Cubie, m: Move, n: int)
    requires
        piece_ok(c),
    ensures
        piece_ok(step_cubie(c, m, n)),
        step_cubie(c, m, n).solved_pos == c.solved_pos,
{
    lemma_move_rotation(m);
    lemma_rotation_keeps_axis(m, c.current_pos);
    lemma_compose_idx_in_group(move_rotation(m), c.orientation.0 as int);
}

/// Undoing a move piece by piece: a move followed by its inverse leaves a
/// piece where it was.
pub proof fn lemma_step_then_inverse(c: Cubie, m: Move, n: int)
    requires
        piece_ok(c),
    ensures
        step_cubie(step_cubie(c, m, n), move_inverse(m), n) == c,
{
    let r = move_rotation(m);
    lemma_move_rotation(m);
    let mi = move_inverse(m);
    assert(affected_coords_spec(mi, n) == affected_coords_spec(m, n));
    if affected(m, n, c.current_pos) {
        lemma_rotation_keeps_axis(m, c.current_pos);
        let c1 = step_cubie(c, m, n);
        assert(affected(mi, n, c1.current_pos));
        lemma_apply_inverse(r, c.current_pos);
        let o = c.orientation.0 as int;
        lemma_compose_idx_in_group(r, o);
        lemma_inverse_idx_in_group(r);
        lemma_assoc_law(inverse_idx(r), r, o);
        lemma_inverse_law(r);
        lemma_identity_law(o);
        assert(c1.orientation.0 == compose_idx(r, o));
    }
}

/// Pieces stay valid through any sequence of moves.
pub proof fn lemma_run_keeps_pieces_ok(cs: Seq<Cubie>, s: Seq<Move>, n: int)
    requires
        pieces_ok(cs),
    ensures
        pieces_ok(run_moves(cs, s, n)),
        run_moves(cs, s, n).len() == cs.len(),
    decreases s.len(),
{
    if s.len() > 0 {
        lemma_run_keeps_pieces_ok(cs, s.drop_last(), n);
        let prev = run_moves(cs, s.drop_last(), n);
        assert forall|i: int| 0 <= i < prev.len() implies piece_ok(
            #[trigger] step_all(prev, s.last(), n)[i],
        ) by {
            lemma_step_keeps_piece_ok(prev[i], s.last(), n);
        }
    }
}

proof fn lemma_step_all_then_inverse(cs: Seq<Cubie>, m: Move, n: int)
    requires
        pieces_ok(cs),
    ensures
        step_all(step_all(cs, m, n), move_inverse(m), n) == cs,
{
    assert forall|i: int| 0 <= i < cs.len() implies #[trigger] step_all(
        step_all(cs, m, n),
        move_inverse(m),
        n,
    )[i] == cs[i] by {
        lemma_step_then_inverse(cs[i], m, n);
    }
    assert(step_all(step_all(cs, m, n), move_inverse(m), n) =~= cs);
}

proof fn lemma_run_front(cs: Seq<Cubie>, x: Move, t: Seq<Move>, n: int)
    ensures
        run_moves(cs, seq![x] + t, n) == run_moves(step_all(cs, x, n), t, n),
    decreases t.len(),
{
    let s = seq![x] + t;
    if t.len() == 0 {
        assert(s.drop_last() =~= Seq::<Move>::empty());
        assert(run_moves(cs, s.drop_last(), n) == cs);
    } else {
        lemma_run_front(cs, x, t.drop_last(), n);
        assert(s.drop_last() =~= seq![x] + t.drop_last());
    }
}

/// A move sequence followed by its inverse restores every piece.
pub proof fn lemma_run_then_inverse(cs: Seq<Cubie>, s: Seq<Move>, n: int)
    requires
        pieces_ok(cs),
    ensures
        run_moves(run_moves(cs, s, n), seq_inverse(s), n) == cs,
    decreases s.len(),
{
    if s.len() == 0 {
        assert(seq_inverse(s) =~= Seq::<Move>::empty());
    } else {
        let sp = s.drop_last();
        let m = s.last();
        assert(seq_inverse(s) =~= seq![move_inverse(m)] + seq_inverse(sp));
        lemma_run_front(run_moves(cs, s, n), move_inverse(m), seq_inverse(sp), n);
        lemma_run_keeps_pieces_ok(cs, sp, n);
        lemma_step_all_then_inverse(run_moves(cs, sp, n), m, n);
        lemma_run_then_inverse(cs, sp, n);
    }
}

/// The same move as `m`, turned by a half turn.
pub open spec fn half_of(m: Move) -> Move {
    Move { face: m.face, turn: Turn::Half, depth: m.depth, wide: m.wide }
}

proof fn lemma_quarter_squared(m: Move)
    requires
        m.turn != Turn::Half,
    ensures
        compose_idx(move_rotation(m), move_rotation(m)) == move_rotation(half_of(m)),
{
    lemma_move_rotation(m);
}

/// A quarter turn applied twice to a piece is the half turn of that layer.
proof fn lemma_step_twice(c: Cubie, m: Move, n: int)
    requires
        piece_ok(c),
        m.turn != Turn::Half,
    ensures
        step_cubie(step_cubie(c, m, n), m, n) == step_cubie(c, half_of(m), n),
{
    let r = move_rotation(m);
    lemma_move_rotation(m);
    lemma_move_rotation(half_of(m));
    lemma_quarter_squared(m);
    assert(affected_coords_spec(half_of(m), n) == affected_coords_spec(m, n));
    if affected(m, n, c.current_pos) {
        lemma_rotation_keeps_axis(m, c.current_pos);
        let c1 = step_cubie(c, m, n);
        assert(affected(m, n, c1.current_pos));
        crate::orient::lemma_apply_compose_law(r, r, c.current_pos);
        lemma_compose_idx_in_group(r, c.orientation.0 as int);
        lemma_assoc_law(r, r, c.orientation.0 as int);
    }
}

/// A half turn applied twice to a piece leaves it where it was.
proof fn lemma_half_twice(c: Cubie, m: Move, n: int)
    requires
        piece_ok(c),
        m.turn == Turn::Half,
    ensures
        step_cubie(step_cubie(c, m, n), m, n) == c,
{
    assert(move_inverse(m) == m);
    lemma_step_then_inverse(c, m, n);
}

/// Any move applied four times in a row leaves the cube as it was; a
/// half turn already does so after two.
pub proof fn lemma_four_turns_identity(cs: Seq<Cubie>, m: Move, n: int)
    requires
        pieces_ok(cs),
    ensures
        run_moves(cs, seq![m, m, m, m], n) == cs,
        m.turn == Turn::Half ==> run_moves(cs, seq![m, m], n) == cs,
{
    reveal_with_fuel(run_moves, 5);
    let s4 = seq![m, m, m, m];
    assert(s4.drop_last() =~= seq![m, m, m]);
    assert(s4.drop_last().drop_last() =~= seq![m, m]);
    assert(s4.drop_last().drop_last().drop_last() =~= seq![m]);
    assert(seq![m].drop_last() =~= Seq::<Move>::empty());
    let r1 = step_all(cs, m, n);
    let r2 = step_all(r1, m, n);
    let r3 = step_all(r2, m, n);
    let r4 = step_all(r3, m, n);
    assert(run_moves(cs, seq![m, m], n) == r2);
    assert(run_moves(cs, s4, n) == r4);
    let h = half_of(m);
    assert forall|i: int| 0 <= i < cs.len() implies #[trigger] r4[i] == cs[i] by {
        let c = cs[i];
        lemma_step_keeps_piece_ok(c, m, n);
        let c1 = step_cubie(c, m, n);
        lemma_step_keeps_piece_ok(c1, m, n);
        let c2 = step_cubie(c1, m, n);
        lemma_step_keeps_piece_ok(c2, m, n);
        if m.turn == Turn::Half {
            lemma_half_twice(c, m, n);
            lemma_half_twice(c2, m, n);
        } else {
            lemma_step_twice(c, m, n);
            lemma_step_twice(c2, m, n);
            lemma_step_keeps_piece_ok(c, h, n);
            lemma_half_twice(c, h, n);
        }
    }
    assert(r4 =~= cs);
    if m.turn == Turn::Half {
        assert forall|i: int| 0 <= i < cs.len() implies #[trigger] r2[i] == cs[i] by {
            lemma_half_twice(cs[i], m, n);
        }
        assert(r2 =~= cs);
    }
}

/// Two turns of one layer compose as one turn by the sum of their quarter
/// turns, or as no rotation when that sum is a whole turn.
proof fn lemma_same_layer_compose(a: Move, b: Move)
    requires
        crate::moves::same_layer(a, b),
    ensures
        ({
            let c = crate::moves::turn_steps(a.turn) + crate::moves::turn_steps(b.turn);
            match crate::moves::turn_from_steps(c as int) {
                Some(t) => compose_idx(move_rotation(b), move_rotation(a)) == move_rotation(
                    Move { face: b.face, turn: t, depth: b.depth, wide: b.wide },
                ),
                None => compose_idx(move_rotation(b), move_rotation(a)) == 0,
            }
        }),
{
    lemma_move_rotation(a);
    lemma_move_rotation(b);
    match a.turn {
        Turn::Cw => match b.turn {
            Turn::Cw => {},
            Turn::Ccw => {},
            Turn::Half => {},
        },
        Turn::Ccw => match b.turn {
            Turn::Cw => {},
            Turn::Ccw => {},
            Turn::Half => {},
        },
        Turn::Half => match b.turn {
            Turn::Cw => {},
            Turn::Ccw => {},
            Turn::Half => {},
        },
    }
}

/// Two turns of one layer act on a piece as their merged turn, or not at
/// all when they cancel.
proof fn lemma_step_merge(c: Cubie, a: Move, b: Move, n: int)
    requires
        piece_ok(c),
        crate::moves::same_layer(a, b),
    ensures
        ({
            let k = crate::moves::turn_steps(a.turn) + crate::moves::turn_steps(b.turn);
            match crate::moves::turn_from_steps(k as int) {
                Some(t) => step_cubie(step_cubie(c, a, n), b, n) == step_cubie(
                    c,
                    Move { face: b.face, turn: t, depth: b.depth, wide: b.wide },
                    n,
                ),
                None => step_cubie(step_cubie(c, a, n), b, n) == c,
            }
        }),
{
    let ra = move_rotation(a);
    let rb = move_rotation(b);
    lemma_move_rotation(a);
    lemma_move_rotation(b);
    lemma_same_layer_compose(a, b);
    let k = crate::moves::turn_steps(a.turn) + crate::moves::turn_steps(b.turn);
    assert(affected_coords_spec(a, n) == affected_coords_spec(b, n));
    if affected(a, n, c.current_pos) {
        lemma_rotation_keeps_axis(a, c.current_pos);
        let c1 = step_cubie(c, a, n);
        assert(affected(b, n, c1.current_pos));
        crate::orient::lemma_apply_compose_law(rb, ra, c.current_pos);
        lemma_compose_idx_in_group(ra, c.orientation.0 as int);
        lemma_assoc_law(rb, ra, c.orientation.0 as int);
        match crate::moves::turn_from_steps(k as int) {
            Some(t) => {
                let m3 = Move { face: b.face, turn: t, depth: b.depth, wide: b.wide };
                lemma_move_rotation(m3);
                assert(affected_coords_spec(m3, n) == affected_coords_spec(b, n));
            },
            None => {
                lemma_identity_law(c.orientation.0 as int);
                crate::orient::lemma_identity_law(0);
            },
        }
    } else {
        match crate::moves::turn_from_steps(k as int) {
            Some(t) => {
                let m3 = Move { face: b.face, turn: t, depth: b.depth, wide: b.wide };
                assert(affected_coords_spec(m3, n) == affected_coords_spec(b, n));
            },
            None => {},
        }
    }
}

proof fn lemma_run_push(cs: Seq<Cubie>, st: Seq<Move>, x: Move, n: int)
    ensures
        run_moves(cs, st.push(x), n) == step_all(run_moves(cs, st, n), x, n),
{
    assert(st.push(x).drop_last() =~= st);
}

/// Pushing a move onto a cancellation stack acts on the pieces as the move.
proof fn lemma_run_push_reduce(cs: Seq<Cubie>, stack: Seq<Move>, m: Move, n: int)
    requires
        pieces_ok(cs),
    ensures
        run_moves(cs, crate::moves::push_reduce(stack, m), n) == step_all(run_moves(cs, stack, n), m, n),
{
    if stack.len() > 0 && crate::moves::same_layer(stack.last(), m) {
        let top = stack.last();
        let rest = stack.drop_last();
        let x = run_moves(cs, rest, n);
        lemma_run_keeps_pieces_ok(cs, rest, n);
        assert(stack == rest.push(top));
        lemma_run_push(cs, rest, top, n);
        let k = crate::moves::turn_steps(top.turn) + crate::moves::turn_steps(m.turn);
        match crate::moves::turn_from_steps(k as int) {
            Some(t) => {
                let m3 = Move { face: m.face, turn: t, depth: m.depth, wide: m.wide };
                lemma_run_push(cs, rest, m3, n);
                let lhs = step_all(x, m3, n);
                let rhs = step_all(step_all(x, top, n), m, n);
                assert forall|i: int| 0 <= i < x.len() implies lhs[i] == rhs[i] by {
                    lemma_step_merge(x[i], top, m, n);
                }
                assert(lhs =~= rhs);
            },
            None => {
                let rhs = step_all(step_all(x, top, n), m, n);
                assert forall|i: int| 0 <= i < x.len() implies x[i] == rhs[i] by {
                    lemma_step_merge(x[i], top, m, n);
                }
                assert(x =~= rhs);
            },
        }
    } else {
        lemma_run_push(cs, stack, m, n);
    }
}

/// Cancelling adjacent turns of one layer does not change what a move
/// sequence does to the pieces.
pub proof fn lemma_run_cancel(cs: Seq<Cubie>, s: Seq<Move>, n: int)
    requires
        pieces_ok(cs),
    ensures
        run_moves(cs, crate::moves::cancel_spec(s), n) == run_moves(cs, s, n),
    decreases s.len(),
{
    if s.len() > 0 {
        lemma_run_cancel(cs, s.drop_last(), n);
        lemma_run_push_reduce(cs, crate::moves::cancel_spec(s.drop_last()), s.last(), n);
    }
}

/// A rotation that fixes coordinate `axis` with sign +1 maps shell
/// positions to shell positions and keeps that coordinate.
proof fn lemma_neg_lattice(c: int, n: int)
    requires
        lattice_coord(c, n),
    ensures
        lattice_coord(-c, n),
{
}

pub(crate) proof fn lemma_rot_keeps_shell(r: int, p: IVec3, n: int)
    requires
        0 <= r < 24,
        on_shell(p, n),
        2 <= n <= 5,
    ensures
        on_shell(apply_rot(rot_of(r), p), n),
{
    crate::orient::lemma_rot_is_rot(r);
    let rr = rot_of(r);
    let q = apply_rot(rr, p);
    assert forall|k: int| 0 <= k < 3 implies lattice_coord(#[trigger] comp(q, k), n) && (comp(
        q,
        k,
    ) == comp(p, rot_from(rr, k)) || comp(q, k) == -comp(p, rot_from(rr, k))) by {
        let j = rot_from(rr, k);
        assert(0 <= j < 3);
        assert(lattice_coord(comp(p, j), n));
        lemma_neg_lattice(comp(p, j), n);
    }
    assert(in_lattice(q, n)) by {
        assert(lattice_coord(comp(q, 0), n));
        assert(lattice_coord(comp(q, 1), n));
        assert(lattice_coord(comp(q, 2), n));
    }
    let j: int = if p.x == n - 1 || p.x == -(n - 1) {
        0
    } else if p.y == n - 1 || p.y == -(n - 1) {
        1
    } else {
        2
    };
    let k = crate::orient::inv_from(rr, j);
    assert(rot_from(rr, k) == j);
    assert(0 <= k < 3);
    assert(comp(q, k) == comp(p, j) || comp(q, k) == -comp(p, j));
    assert(is_outer(q, n));
}

/// A valid move keeps the cube well formed.
#[verifier::spinoff_prover]
pub proof fn lemma_step_keeps_wf(cs: Seq<Cubie>, m: Move, n: int)
    requires
        cubies_wf(cs, n),
    ensures
        cubies_wf(step_all(cs, m, n), n),
{
    let r = move_rotation(m);
    lemma_move_rotation(m);
    let out = step_all(cs, m, n);
    assert forall|i: int| 0 <= i < out.len() implies #[trigger] out[i].orientation.0 < 24
        && on_shell(out[i].current_pos, n) && on_shell(out[i].solved_pos, n) by {
        let c = cs[i];
        assert(out[i] == step_cubie(c, m, n));
        assert(c.orientation.0 < 24 && on_shell(c.current_pos, n) && on_shell(c.solved_pos, n));
        if affected(m, n, c.current_pos) {
            lemma_compose_idx_in_group(r, c.orientation.0 as int);
            lemma_rot_keeps_shell(r, c.current_pos, n);
        }
    }
    assert forall|p: IVec3| #[trigger] on_shell(p, n) implies occupied(out, p) by {
        if affected(m, n, p) {
            lemma_inverse_idx_in_group(r);
            let q = apply_rot(rot_of(inverse_idx(r)), p);
            lemma_rot_keeps_shell(inverse_idx(r), p, n);
            assert(occupied(cs, q));
            let i = choose|i: int| 0 <= i < cs.len() && (#[trigger] cs[i]).current_pos == q;
            lemma_inverse_law(r);
            lemma_apply_bounded(inverse_idx(r), p, 5);
            lemma_apply_inverse(inverse_idx(r), p);
            assert(inverse_idx(inverse_idx(r)) == r);
            lemma_rotation_keeps_axis(move_inverse(m), p);
            assert(move_rotation(move_inverse(m)) == inverse_idx(r));
            assert(affected(m, n, q));
            assert(out[i].current_pos == p);
        } else {
            let i = choose|i: int| 0 <= i < cs.len() && (#[trigger] cs[i]).current_pos == p;
            assert(out[i].current_pos == p);
        }
    }
}

// ---------------------------------------------------------------------
// Exec operations.
// ---------------------------------------------------------------------

fn contains_i32(v: &Vec<i32>, x: i32) -> (r: bool)
    ensures
        r == v@.contains(x),
{
    let mut i: usize = 0;
    while i < v.len()
        invariant
            i <= v@.len(),
            forall|j: int| 0 <= j < i ==> v@[j] != x,
        decreases v@.len() - i,
    {
        if v[i] == x {
            return true;
        }
        i = i + 1;
    }
    false
}

impl Cube {
    /// Build a freshly solved cube of the given size.
    pub fn solved(size: u8) -> (r: Result<Self, CubeError>)
        ensures
            match r {
                Ok(c) => 2 <= size <= 5 && c.size == size && c.cubies@ == visible_spec(
                    size as int,
                ).map_values(|p: IVec3| solved_cubie(p)) && c.wf(),
                Err(e) => !(2 <= size <= 5) && e == CubeError::InvalidSize(size),
            },
    {
        if size < MIN_SIZE || size > MAX_SIZE {
            return Err(CubeError::InvalidSize(size));
        }
        let positions = visible_positions(size);
        let mut cubies: Vec<Cubie> = Vec::with_capacity(positions.len());
        let mut i: usize = 0;
        while i < positions.len()
            invariant
                i <= positions@.len(),
                cubies@ =~= positions@.take(i as int).map_values(|p: IVec3| solved_cubie(p)),
            decreases positions@.len() - i,
        {
            cubies.push(Cubie::solved_at(positions[i]));
            i = i + 1;
        }
        proof {
            assert(positions@.take(i as int) =~= positions@);
            lemma_solved_wf(size as int);
        }
        Ok(Self { size, cubies })
    }

    /// Apply a move in place.
    pub fn apply(&mut self, m: Move) -> (r: Result<(), CubeError>)
        requires
            pieces_ok(old(self).cubies@),
        ensures
            final(self).size == old(self).size,
            pieces_ok(final(self).cubies@),
            final(self).cubies@.len() == old(self).cubies@.len(),
            match r {
                Ok(()) => valid_move(m, old(self).size as int) && final(self).cubies@ == step_all(
                    old(self).cubies@,
                    m,
                    old(self).size as int,
                ),
                Err(e) => !valid_move(m, old(self).size as int) && e == move_error(
                    m,
                    old(self).size,
                ) && final(self).cubies@ == old(self).cubies@,
            },
    {
        if m.depth == 0 {
            return Err(CubeError::ZeroDepth);
        }
        if m.depth > self.size {
            return Err(CubeError::DepthOutOfRange { depth: m.depth, size: self.size });
        }
        let axis = m.face.axis() as usize;
        let coords = m.affected_layer_coords(self.size);
        let rotation = m.rotation();
        let n = self.cubies.len();
        let ghost start = self.cubies@;
        let ghost size = self.size as int;
        let mut i: usize = 0;
        while i < n
            invariant
                n == self.cubies@.len(),
                n == start.len(),
                size == self.size,
                i <= n,
                axis == face_axis(m.face),
                coords@ == affected_coords_spec(m, size),
                rotation.0 == move_rotation(m),
                pieces_ok(start),
                forall|j: int| 0 <= j < i ==> self.cubies@[j] == step_cubie(start[j], m, size),
                forall|j: int| i <= j < n ==> self.cubies@[j] == start[j],
            decreases n - i,
        {
            let cubie = self.cubies[i];
            proof {
                assert(piece_ok(start[i as int]));
            }
            let v = cubie.current_pos.component(axis);
            if contains_i32(&coords, v) {
                let new_pos = rotation.apply(cubie.current_pos);
                let new_orient = rotation.compose(cubie.orientation);
                self.cubies.set(
                    i,
                    Cubie { solved_pos: cubie.solved_pos, current_pos: new_pos, orientation: new_orient },
                );
            }
            i = i + 1;
        }
        proof {
            assert(self.cubies@ =~= step_all(start, m, size));
            assert forall|j: int| 0 <= j < n implies piece_ok(#[trigger] self.cubies@[j]) by {
                lemma_step_keeps_piece_ok(start[j], m, size);
            }
        }
        Ok(())
    }

    /// Apply a sequence of moves in order, stopping at the first move whose
    /// depth does not fit the cube.
    pub fn apply_seq(&mut self, seq: &MoveSeq) -> (r: Result<(), CubeError>)
        requires
            pieces_ok(old(self).cubies@),
        ensures
            final(self).size == old(self).size,
            pieces_ok(final(self).cubies@),
            match r {
                Ok(()) => (forall|i: int|
                    0 <= i < seq.0@.len() ==> valid_move(#[trigger] seq.0@[i], old(self).size as int))
                    && final(self).cubies@ == run_moves(
                    old(self).cubies@,
                    seq.0@,
                    old(self).size as int,
                ),
                Err(e) => exists|k: int|
                    0 <= k < seq.0@.len() && (forall|i: int|
                        0 <= i < k ==> valid_move(#[trigger] seq.0@[i], old(self).size as int))
                        && !valid_move(seq.0@[k], old(self).size as int) && e == move_error(
                        seq.0@[k],
                        old(self).size,
                    ) && final(self).cubies@ == run_moves(
                        old(self).cubies@,
                        seq.0@.take(k),
                        old(self).size as int,
                    ),
            },
    {
        let ghost start = self.cubies@;
        let ghost size = self.size as int;
        let mut i: usize = 0;
        while i < seq.0.len()
            invariant
                i <= seq.0@.len(),
                self.size == size,
                size == old(self).size,
                start == old(self).cubies@,
                pieces_ok(start),
                pieces_ok(self.cubies@),
                forall|j: int| 0 <= j < i ==> valid_move(#[trigger] seq.0@[j], size),
                self.cubies@ == run_moves(start, seq.0@.take(i as int), size),
            decreases seq.0@.len() - i,
        {
            let m = seq.0[i];
            let r = self.apply(m);
            match r {
                Ok(()) => {
                    proof {
                        assert(seq.0@.take(i + 1).drop_last() =~= seq.0@.take(i as int));
                    }
                },
                Err(e) => {
                    proof {
                        assert(0 <= i < seq.0@.len());
                        assert(!valid_move(seq.0@[i as int], size));
                    }
                    return Err(e);
                },
            }
            i = i + 1;
        }
        proof {
            assert(seq.0@.take(i as int) =~= seq.0@);
        }
        Ok(())
    }

    /// Apply a single move and return the resulting cube.
    pub fn after(&self, m: Move) -> (r: Result<Self, CubeError>)
        requires
            pieces_ok(self.cubies@),
        ensures
            match r {
                Ok(c) => valid_move(m, self.size as int) && c.size == self.size && c.cubies@
                    == step_all(self.cubies@, m, self.size as int),
                Err(e) => !valid_move(m, self.size as int) && e == move_error(m, self.size),
            },
    {
        let mut out = self.duplicate();
        match out.apply(m) {
            Ok(()) => Ok(out),
            Err(e) => Err(e),
        }
    }

    /// A copy of this cube.
    pub fn duplicate(&self) -> (r: Self)
        ensures
            r.size == self.size,
            r.cubies@ == self.cubies@,
    {
        let mut cubies: Vec<Cubie> = Vec::with_capacity(self.cubies.len());
        let mut i: usize = 0;
        while i < self.cubies.len()
            invariant
                i <= self.cubies@.len(),
                cubies@ =~= self.cubies@.take(i as int),
            decreases self.cubies@.len() - i,
        {
            cubies.push(self.cubies[i]);
            i = i + 1;
        }
        proof {
            assert(self.cubies@.take(i as int) =~= self.cubies@);
        }
        Self { size: self.size, cubies }
    }

    /// Strict: every cubie at home with identity orientation.
    pub fn is_strictly_solved(&self) -> (r: bool)
        ensures
            r == (forall|i: int|
                0 <= i < self.cubies@.len() ==> (#[trigger] self.cubies@[i]).solved_pos
                    == self.cubies@[i].current_pos && self.cubies@[i].orientation.0 == 0),
    {
        let mut i: usize = 0;
        while i < self.cubies.len()
            invariant
                i <= self.cubies@.len(),
                forall|j: int|
                    0 <= j < i ==> (#[trigger] self.cubies@[j]).solved_pos
                        == self.cubies@[j].current_pos && self.cubies@[j].orientation.0 == 0,
            decreases self.cubies@.len() - i,
        {
            if !self.cubies[i].is_at_home() {
                return false;
            }
            i = i + 1;
        }
        true
    }

    /// Number of pieces. Never changes under moves.
    pub fn cubie_count(&self) -> (r: usize)
        ensures
            r == self.cubies@.len(),
    {
        self.cubies.len()
    }
}

/// A well-formed cube stays well formed through any sequence of valid
/// moves.
pub proof fn lemma_run_keeps_wf(cs: Seq<Cubie>, s: Seq<Move>, n: int)
    requires
        cubies_wf(cs, n),
    ensures
        cubies_wf(run_moves(cs, s, n), n),
    decreases s.len(),
{
    if s.len() > 0 {
        lemma_run_keeps_wf(cs, s.drop_last(), n);
        lemma_step_keeps_wf(run_moves(cs, s.drop_last(), n), s.last(), n);
    }
}

/// A well-formed cube has valid pieces.
pub proof fn lemma_wf_pieces_ok(cs: Seq<Cubie>, n: int)
    requires
        cubies_wf(cs, n),
    ensures
        pieces_ok(cs),
{
    assert forall|i: int| 0 <= i < cs.len() implies piece_ok(#[trigger] cs[i]) by {
        assert(cs[i].orientation.0 < 24);
        assert(on_shell(cs[i].current_pos, n));
    }
}

// ---------------------------------------------------------------------
// Visible positions.
// ---------------------------------------------------------------------

pub(crate) proof fn lemma_lattice_index(n: int, kx: int, ky: int, kz: int)
    requires
        2 <= n <= 5,
        0 <= kx < n,
        0 <= ky < n,
        0 <= kz < n,
    ensures
        0 <= (kx * n + ky) * n + kz < n * n * n,
        lattice_pos(n, (kx * n + ky) * n + kz) == ivec(
            2 * kx - (n - 1),
            2 * ky - (n - 1),
            2 * kz - (n - 1),
        ),
{
    let i = (kx * n + ky) * n + kz;
    assert(0 <= kx * n + ky < n * n) by (nonlinear_arith)
        requires
            0 <= kx < n,
            0 <= ky < n,
    ;
    assert(0 <= i < n * n * n) by (nonlinear_arith)
        requires
            0 <= kx * n + ky < n * n,
            0 <= kz < n,
            i == (kx * n + ky) * n + kz,
    ;
    lemma_fundamental_div_mod_converse(i, n, kx * n + ky, kz);
    lemma_fundamental_div_mod_converse(kx * n + ky, n, kx, ky);
    lemma_div_denominator(i, n, n);
}

pub proof fn lemma_solved_wf(n: int)
    requires
        2 <= n <= 5,
    ensures
        cubies_wf(visible_spec(n).map_values(|p: IVec3| solved_cubie(p)), n),
{
    let full = Seq::new((n * n * n) as nat, |i: int| lattice_pos(n, i));
    let pred = |p: IVec3| is_outer(p, n);
    let vis = visible_spec(n);
    let cs = vis.map_values(|p: IVec3| solved_cubie(p));
    assert forall|i: int| 0 <= i < cs.len() implies #[trigger] cs[i].orientation.0 < 24
        && on_shell(cs[i].current_pos, n) && on_shell(cs[i].solved_pos, n) by {
        full.lemma_filter_pred(pred, i);
        assert(vis.contains(vis[i]));
        full.lemma_filter_contains_rev(pred, vis[i]);
        assert(full.contains(vis[i]));
        let j = choose|j: int| 0 <= j < full.len() && full[j] == vis[i];
        let kx = j / (n * n);
        let ky = (j / n) % n;
        let kz = j % n;
        assert(0 <= j / (n * n) < n) by (nonlinear_arith)
            requires
                0 <= j < n * n * n,
                n >= 2,
        ;
        assert(0 <= kz < n);
        assert(0 <= ky < n);
        assert(in_lattice(vis[i], n));
    }
    assert forall|p: IVec3| #[trigger] on_shell(p, n) implies occupied(cs, p) by {
        let kx = (p.x + n - 1) / 2;
        let ky = (p.y + n - 1) / 2;
        let kz = (p.z + n - 1) / 2;
        lemma_lattice_index(n, kx, ky, kz);
        let j = (kx * n + ky) * n + kz;
        assert(full[j] == p);
        assert(pred(full[j]));
        full.lemma_filter_contains(pred, j);
        assert(vis.contains(p));
        let i = choose|i: int| 0 <= i < vis.len() && vis[i] == p;
        assert(cs[i].current_pos == p);
    }
}

/// Enumerate all visible piece positions for a cube of size `n`, in
/// lexicographic `(x, y, z)` order.
fn visible_positions(n: u8) -> (r: Vec<IVec3>)
    requires
        2 <= n <= 5,
    ensures
        r@ == visible_spec(n as int),
{
    let ni = n as i32;
    let outer = ni - 1;
    let ghost nn = n as int;
    let ghost full = Seq::new((nn * nn * nn) as nat, |i: int| lattice_pos(nn, i));
    let ghost pred = |p: IVec3| is_outer(p, nn);
    let mut positions: Vec<IVec3> = Vec::new();
    let mut kx: i32 = 0;
    while kx < ni
        invariant
            2 <= nn <= 5,
            ni == nn,
            outer == nn - 1,
            0 <= kx <= ni,
            full == Seq::new((nn * nn * nn) as nat, |i: int| lattice_pos(nn, i)),
            pred == (|p: IVec3| is_outer(p, nn)),
            positions@ == full.take(kx * nn * nn).filter(pred),
        decreases ni - kx,
    {
        let mut ky: i32 = 0;
        while ky < ni
            invariant
                2 <= nn <= 5,
                ni == nn,
                outer == nn - 1,
                0 <= kx < ni,
                0 <= ky <= ni,
                full == Seq::new((nn * nn * nn) as nat, |i: int| lattice_pos(nn, i)),
                pred == (|p: IVec3| is_outer(p, nn)),
                positions@ == full.take((kx * nn + ky) * nn).filter(pred),
            decreases ni - ky,
        {
            let mut kz: i32 = 0;
            while kz < ni
                invariant
                    2 <= nn <= 5,
                    ni == nn,
                    outer == nn - 1,
                    0 <= kx < ni,
                    0 <= ky < ni,
                    0 <= kz <= ni,
                    full == Seq::new((nn * nn * nn) as nat, |i: int| lattice_pos(nn, i)),
                    pred == (|p: IVec3| is_outer(p, nn)),
                    positions@ == full.take((kx * nn + ky) * nn + kz).filter(pred),
                decreases ni - kz,
            {
                let x = 2 * kx - outer;
                let y = 2 * ky - outer;
                let z = 2 * kz - outer;
                let p = IVec3 { x, y, z };
                proof {
                    let idx = (kx * nn + ky) * nn + kz;
                    lemma_lattice_index(nn, kx as int, ky as int, kz as int);
                    assert(full[idx] == p);
                    assert(full.take(idx + 1).drop_last() =~= full.take(idx));
                    assert(full.take(idx + 1).last() == p);
                    reveal(Seq::filter);
                }
                let on_shell = x == outer || x == -outer || y == outer || y == -outer || z
                    == outer || z == -outer;
                if on_shell {
                    positions.push(p);
                }
                kz = kz + 1;
            }
            proof {
                assert((kx * nn + ky) * nn + nn == (kx * nn + ky + 1) * nn) by (nonlinear_arith);
            }
            ky = ky + 1;
        }
        proof {
            assert((kx * nn + nn) * nn == (kx + 1) * nn * nn) by (nonlinear_arith);
        }
        kx = kx + 1;
    }
    proof {
        assert(nn * nn * nn == ni * nn * nn);
        assert(full.take(ni * nn * nn) =~= full);
    }
    positions
}

// ---------------------------------------------------------------------
// Corner twist and edge orientation.
// ---------------------------------------------------------------------

pub open spec fn sign_of(x: int) -> int {
    if x > 0 {
        1
    } else if x < 0 {
        -1
    } else {
        0
    }
}

/// Product of the signs of the three coordinates.
pub open spec fn position_parity(p: IVec3) -> int {
    if p.x == 0 || p.y == 0 || p.z == 0 {
        0
    } else if (p.x < 0) == (p.y < 0) {
        if p.z > 0 {
            1
        } else {
            -1
        }
    } else {
        if p.z > 0 {
            -1
        } else {
            1
        }
    }
}

/// Axis of the single nonzero coordinate of a unit vector, checking y
/// first, then x, otherwise z.
pub open spec fn twist_axis(v: IVec3) -> int {
    if v.y != 0 {
        1
    } else if v.x != 0 {
        0
    } else {
        2
    }
}

pub open spec fn home_up(c: Cubie) -> IVec3 {
    if c.solved_pos.y > 0 {
        ivec(0, 1, 0)
    } else {
        ivec(0, -1, 0)
    }
}

pub open spec fn corner_twist_axis(c: Cubie) -> int {
    twist_axis(apply_rot(rot_of(c.orientation.0 as int), home_up(c)))
}

pub open spec fn corner_twist_spec(c: Cubie) -> u8 {
    let axis = corner_twist_axis(c);
    let parity = position_parity(c.current_pos);
    if axis == 1 {
        0
    } else if axis == 0 {
        if parity == 1 {
            1
        } else {
            2
        }
    } else {
        if parity == 1 {
            2
        } else {
            1
        }
    }
}

/// Parity-aware corner twist value for a cubie at its current position:
/// 0 when its U/D sticker faces along Y, otherwise 1 or 2 by which axis it
/// faces and the parity of the slot. The total over all corners is
/// invariant mod 3 under face turns.
pub fn corner_twist(cubie: &Cubie) -> (r: u8)
    requires
        cubie.orientation.0 < 24,
        corner_twist_axis(*cubie) == 1 || position_parity(cubie.current_pos) != 0,
    ensures
        r == corner_twist_spec(*cubie),
        r < 3,
{
    let home_y = if cubie.solved_pos.y > 0 {
        IVec3 { x: 0, y: 1, z: 0 }
    } else {
        IVec3 { x: 0, y: -1, z: 0 }
    };
    let now_y = cubie.orientation.apply(home_y);
    let axis: u8 = if now_y.y != 0 {
        1
    } else if now_y.x != 0 {
        0
    } else {
        2
    };
    let p = cubie.current_pos;
    let parity: i32 = if p.x == 0 || p.y == 0 || p.z == 0 {
        0
    } else if (p.x < 0) == (p.y < 0) {
        if p.z > 0 {
            1
        } else {
            -1
        }
    } else {
        if p.z > 0 {
            -1
        } else {
            1
        }
    };
    if axis == 1 {
        0
    } else if axis == 0 {
        if parity == 1 {
            1
        } else {
            2
        }
    } else {
        if parity == 1 {
            2
        } else {
            1
        }
    }
}

pub open spec fn edge_primary(c: Cubie) -> IVec3 {
    let h = c.solved_pos;
    if h.y != 0 {
        if h.y > 0 {
            ivec(0, 1, 0)
        } else {
            ivec(0, -1, 0)
        }
    } else if h.z > 0 {
        ivec(0, 0, 1)
    } else {
        ivec(0, 0, -1)
    }
}

pub open spec fn edge_good_axis(c: Cubie) -> int {
    if c.solved_pos.y != 0 {
        1
    } else {
        2
    }
}

/// Axis of the nonzero coordinate, checking x first, then y.
pub open spec fn facing_axis(v: IVec3) -> int {
    if v.x != 0 {
        0
    } else if v.y != 0 {
        1
    } else {
        2
    }
}

pub open spec fn edge_orient_spec(c: Cubie) -> u8 {
    if facing_axis(apply_rot(rot_of(c.orientation.0 as int), edge_primary(c))) == edge_good_axis(
        c,
    ) {
        0
    } else {
        1
    }
}

/// Edge orientation: UD-layer edges (home y ≠ 0) use their U/D sticker
/// with Y as good axis; E-slice edges use their F/B sticker with Z.
/// 0 if that sticker faces its good axis, 1 if flipped.
pub fn edge_orient(cubie: &Cubie) -> (r: u8)
    requires
        cubie.orientation.0 < 24,
    ensures
        r == edge_orient_spec(*cubie),
        r < 2,
{
    let h = cubie.solved_pos;
    let (primary, good_axis) = if h.y != 0 {
        let dir = if h.y > 0 {
            IVec3 { x: 0, y: 1, z: 0 }
        } else {
            IVec3 { x: 0, y: -1, z: 0 }
        };
        (dir, 1u8)
    } else {
        let dir = if h.z > 0 {
            IVec3 { x: 0, y: 0, z: 1 }
        } else {
            IVec3 { x: 0, y: 0, z: -1 }
        };
        (dir, 2u8)
    };
    let now = cubie.orientation.apply(primary);
    let now_axis: u8 = if now.x != 0 {
        0
    } else if now.y != 0 {
        1
    } else {
        2
    };
    if now_axis == good_axis {
        0
    } else {
        1
    }
}

} // verus!
