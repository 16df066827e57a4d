//! The 2×2 solver's slot reading follows the cube: a face move of the
//! solver's alphabet changes the reading exactly as the move's slot
//! operation says, so a path the solver finds over its table solves the
//! cube itself.

use vstd::prelude::*;
use crate::cube::{Cubie, affected, corner_twist_spec, cubies_wf, lattice_pos, on_shell, run_moves, solved_cubie, step_all, step_cubie};
use crate::moves::{Face, Move, lemma_move_rotation, move_inverse, move_rotation};
use crate::orient::{apply_rot, inverse_idx, rot_of};
use crate::three::tracking::{all_consistent, consistent, lemma_first_after_step, lemma_twist_step, pre_pos};
use crate::two::{
    Solver2x2, alphabet_move, cube_orient, cube_perm, dbl_home, digit_sum, distinct_homes, encode_seqs, is_two_solution,
    op_index_of, seqs_valid, slot_piece, solved_two, walk,
};
use crate::validation::first_piece_at;
use crate::vec3::{IVec3, bounded, comp, ivec};

verus! {

/// A position with every coordinate doubled.
pub open spec fn dbl(p: IVec3) -> IVec3 {
    ivec(2 * p.x, 2 * p.y, 2 * p.z)
}

/// A piece of a 2×2 placed at the matching corner of a 3×3.
pub open spec fn scaled(c: Cubie) -> Cubie {
    Cubie { solved_pos: dbl(c.solved_pos), current_pos: dbl(c.current_pos), orientation: c.orientation }
}

/// Rotations commute with doubling.
#[verifier::spinoff_prover]
proof fn lemma_rot_scale(r: int, p: IVec3)
    requires
        0 <= r < 24,
        bounded(p, 1000),
    ensures
        apply_rot(rot_of(r), dbl(p)) == dbl(apply_rot(rot_of(r), p)),
        bounded(apply_rot(rot_of(r), p), 1000),
{
    crate::orient::lemma_rot_is_rot(r);
    crate::orient::lemma_apply_bounded(r, p, 1000);
}

/// A face turn of depth one moves a doubled 2×2 corner as it moves the
/// corner itself.
#[verifier::spinoff_prover]
proof fn lemma_step_scale(c: Cubie, m: Move)
    requires
        crate::cube::on_shell(c.current_pos, 2),
        m.depth == 1,
        !m.wide,
    ensures
        step_cubie(scaled(c), m, 3) == scaled(step_cubie(c, m, 2)),
{
    let r = move_rotation(m);
    lemma_move_rotation(m);
    let p = c.current_pos;
    assert(affected(m, 3, dbl(p)) == affected(m, 2, p)) by {
        let a3 = crate::moves::affected_coords_spec(m, 3);
        let a2 = crate::moves::affected_coords_spec(m, 2);
        assert(crate::moves::first_layer(m) == 1);
        assert(a3.len() == 1 && a2.len() == 1);
        let sg = crate::moves::face_axis_sign(m.face);
        assert(sg == 1 || sg == -1);
        assert(a3[0] == crate::moves::layer_coord_spec(m.face, 3, 1) as i32);
        assert(a2[0] == crate::moves::layer_coord_spec(m.face, 2, 1) as i32);
        assert(a3[0] == 2 * a2[0]);
        assert(a3.contains(crate::vec3::comp(dbl(p), crate::moves::face_axis(m.face) as int) as i32)
            ==> a3[0] == crate::vec3::comp(dbl(p), crate::moves::face_axis(m.face) as int));
        assert(a2.contains(crate::vec3::comp(p, crate::moves::face_axis(m.face) as int) as i32)
            ==> a2[0] == crate::vec3::comp(p, crate::moves::face_axis(m.face) as int));
    }
    lemma_rot_scale(r, p);
}

/// Doubling keeps the twist reading and the consistency of a piece.
#[verifier::spinoff_prover]
proof fn lemma_scaled_reads(c: Cubie)
    requires
        c.orientation.0 < 24,
        bounded(c.solved_pos, 1000),
        bounded(c.current_pos, 1000),
    ensures
        corner_twist_spec(scaled(c)) == corner_twist_spec(c),
        consistent(scaled(c)) == consistent(c),
{
    lemma_rot_scale(c.orientation.0 as int, c.solved_pos);
}

/// On a 2×2, a face turn of depth one adds to a consistent corner's twist
/// the twist it gives the solved piece at the same position.
#[verifier::spinoff_prover]
pub proof fn lemma_twist_step_two(c: Cubie, m: Move)
    requires
        c.orientation.0 < 24,
        consistent(c),
        crate::cube::on_shell(c.solved_pos, 2),
        crate::cube::on_shell(c.current_pos, 2),
        m.depth == 1,
        !m.wide,
    ensures
        corner_twist_spec(step_cubie(c, m, 2)) == (corner_twist_spec(c) + corner_twist_spec(
            step_cubie(solved_cubie(c.current_pos), m, 2),
        )) % 3,
{
    let sc = solved_cubie(c.current_pos);
    lemma_scaled_reads(c);
    lemma_step_scale(c, m);
    lemma_step_scale(sc, m);
    assert(scaled(sc) == solved_cubie(dbl(c.current_pos)));
    lemma_twist_step(scaled(c), m);
    let c1 = step_cubie(c, m, 2);
    let s1 = step_cubie(sc, m, 2);
    let r = move_rotation(m);
    lemma_move_rotation(m);
    crate::orient::lemma_compose_idx_in_group(r, c.orientation.0 as int);
    crate::orient::lemma_compose_idx_in_group(r, 0);
    lemma_rot_scale(r, c.current_pos);
    lemma_scaled_reads(c1);
    lemma_scaled_reads(s1);
}

/// The pieces are listed by home in lexicographic order, as a solved 2×2
/// lists them.
pub open spec fn homes_in_order(cs: Seq<Cubie>) -> bool {
    &&& cs.len() == 8
    &&& forall|i: int| 0 <= i < 8 ==> (#[trigger] cs[i]).solved_pos == lattice_pos(2, i)
}

/// A 2×2 whose pieces the solver's reading follows: well formed, listed
/// by home, each piece where its rotation takes its home, and the DBL
/// corner at home.
#[verifier::opaque]
pub open spec fn pocket_ok(cs: Seq<Cubie>) -> bool {
    &&& cubies_wf(cs, 2)
    &&& homes_in_order(cs)
    &&& all_consistent(cs)
    &&& dbl_home(cs[0])
}

/// A face turn of the solver's alphabet: one layer of R, U or F.
pub open spec fn solver_move(m: Move) -> bool {
    &&& (m.face == Face::R || m.face == Face::U || m.face == Face::F)
    &&& m.depth == 1
    &&& !m.wide
}

/// Position of a 2×2 lattice point in lexicographic order.
pub open spec fn lattice_index2(p: IVec3) -> int {
    4 * ((p.x + 1) / 2) + 2 * ((p.y + 1) / 2) + (p.z + 1) / 2
}

/// The slot whose piece a move brings to slot `s`.
pub open spec fn src_slot(m: Move, s: int) -> int {
    lattice_index2(pre_pos(m, 2, lattice_pos(2, s + 1))) - 1
}

/// The twist a move gives the piece it brings to slot `s`.
pub open spec fn twist_added(m: Move, s: int) -> int {
    corner_twist_spec(step_cubie(solved_cubie(pre_pos(m, 2, lattice_pos(2, s + 1))), m, 2)) as int
}

#[verifier::spinoff_prover]
proof fn lemma_lattice_two(i: int)
    requires
        0 <= i < 8,
    ensures
        on_shell(lattice_pos(2, i), 2),
        lattice_index2(lattice_pos(2, i)) == i,
        bounded(lattice_pos(2, i), 1),
{
    assert(i == 4 * (i / 4) + 2 * ((i / 2) % 2) + i % 2);
}

#[verifier::spinoff_prover]
proof fn lemma_shell_two(p: IVec3)
    requires
        on_shell(p, 2),
    ensures
        0 <= lattice_index2(p) < 8,
        lattice_pos(2, lattice_index2(p)) == p,
        (lattice_index2(p) == 0) == (p == ivec(-1, -1, -1)),
        bounded(p, 1),
{
    let i = lattice_index2(p);
    assert(i / 4 == (p.x + 1) / 2);
    assert((i / 2) % 2 == (p.y + 1) / 2);
    assert(i % 2 == (p.z + 1) / 2);
}

#[verifier::spinoff_prover]
proof fn lemma_homes_distinct(cs: Seq<Cubie>)
    requires
        homes_in_order(cs),
    ensures
        distinct_homes(cs),
{
    assert forall|i: int, j: int|
        0 <= i < cs.len() && 0 <= j < cs.len() && i != j implies cs[i].solved_pos != cs[j].solved_pos by {
        lemma_lattice_two(i);
        lemma_lattice_two(j);
    }
}

/// A solver move turns the layer at coordinate 1 of its axis.
#[verifier::spinoff_prover]
proof fn lemma_solver_affected(m: Move, p: IVec3)
    requires
        solver_move(m),
    ensures
        affected(m, 2, p) == (comp(p, crate::moves::face_axis(m.face) as int) == 1),
{
    let a = crate::moves::affected_coords_spec(m, 2);
    assert(crate::moves::first_layer(m) == 1);
    assert(a.len() == 1);
    assert(a[0] == crate::moves::layer_coord_spec(m.face, 2, 1) as i32);
    assert(a[0] == 1);
    if comp(p, crate::moves::face_axis(m.face) as int) == 1 {
        assert(a[0] == comp(p, crate::moves::face_axis(m.face) as int) as i32);
    }
}

/// Where a piece landing on a 2×2 position came from is a position too,
/// never the DBL corner's home when the move is a solver move.
#[verifier::spinoff_prover]
proof fn lemma_pre_two(m: Move, q: IVec3)
    requires
        solver_move(m),
        on_shell(q, 2),
        q != ivec(-1, -1, -1),
    ensures
        on_shell(pre_pos(m, 2, q), 2),
        pre_pos(m, 2, q) != ivec(-1, -1, -1),
{
    let r = move_rotation(m);
    lemma_move_rotation(m);
    lemma_move_rotation(move_inverse(m));
    crate::orient::lemma_inverse_idx_in_group(r);
    lemma_shell_two(q);
    if affected(m, 2, q) {
        crate::cube::lemma_rot_keeps_shell(inverse_idx(r), q, 2);
        crate::cube::lemma_rotation_keeps_axis(move_inverse(m), q);
        lemma_solver_affected(m, q);
        lemma_solver_affected(m, pre_pos(m, 2, q));
    }
}

/// A solver move leaves the DBL corner where it is.
#[verifier::spinoff_prover]
proof fn lemma_dbl_unmoved(m: Move, c: Cubie)
    requires
        solver_move(m),
        c.current_pos == ivec(-1, -1, -1),
    ensures
        step_cubie(c, m, 2) == c,
{
    lemma_solver_affected(m, c.current_pos);
}

/// A solver move keeps a 2×2 one whose reading the solver follows.
#[verifier::spinoff_prover]
pub proof fn lemma_pocket_step(cs: Seq<Cubie>, m: Move)
    requires
        pocket_ok(cs),
        solver_move(m),
    ensures
        pocket_ok(step_all(cs, m, 2)),
{
    reveal(pocket_ok);
    let out = step_all(cs, m, 2);
    assert(cubies_wf(out, 2)) by {
        crate::cube::lemma_step_keeps_wf(cs, m, 2);
    }
    assert(all_consistent(out)) by {
        crate::three::tracking::lemma_step_keeps_consistent(cs, m, 2);
    }
    assert(dbl_home(out[0])) by {
        lemma_dbl_unmoved(m, cs[0]);
    }
    assert(homes_in_order(out)) by {
        assert forall|i: int| 0 <= i < 8 implies (#[trigger] out[i]).solved_pos == lattice_pos(2, i) by {
            assert(out[i].solved_pos == cs[i].solved_pos);
        }
    }
}

/// The piece a solver move brings to the home of slot `s` is the piece
/// found at the home of slot `src_slot(m, s)` before it.
#[verifier::spinoff_prover]
proof fn lemma_slot_piece_step(cs: Seq<Cubie>, m: Move, s: int)
    requires
        pocket_ok(cs),
        solver_move(m),
        0 <= s < 7,
    ensures
        0 <= src_slot(m, s) < 7,
        0 <= slot_piece(cs, src_slot(m, s)) < 8,
        slot_piece(step_all(cs, m, 2), s) == slot_piece(cs, src_slot(m, s)),
        cs[slot_piece(cs, src_slot(m, s))].current_pos == pre_pos(m, 2, lattice_pos(2, s + 1)),
        consistent(cs[slot_piece(cs, src_slot(m, s))]),
        cs[slot_piece(cs, src_slot(m, s))].orientation.0 < 24,
        on_shell(cs[slot_piece(cs, src_slot(m, s))].solved_pos, 2),
        on_shell(cs[slot_piece(cs, src_slot(m, s))].current_pos, 2),
        homes_in_order(cs),
{
    reveal(pocket_ok);
    let q = lattice_pos(2, s + 1);
    let after = step_all(cs, m, 2);
    lemma_lattice_two(s + 1);
    lemma_shell_two(q);
    lemma_pre_two(m, q);
    let pre = pre_pos(m, 2, q);
    lemma_shell_two(pre);
    let t = lattice_index2(pre) - 1;
    crate::cube::lemma_wf_pieces_ok(cs, 2);
    lemma_first_after_step(cs, m, 2, q);
    assert(after[s + 1].solved_pos == q);
    assert(cs[t + 1].solved_pos == pre);
    assert(crate::cube::occupied(cs, pre));
    crate::two::lemma_first_piece_occupied(cs, pre);
    crate::two::lemma_first_piece_props(cs, pre);
}

/// The reading of slot `s` after a move, from the piece `k` that lands
/// there and the slot `t` it came from.
#[verifier::spinoff_prover]
proof fn lemma_slot_values(cs: Seq<Cubie>, m: Move, s: int, t: int, k: int)
    requires
        homes_in_order(cs),
        solver_move(m),
        0 <= s < 7,
        0 <= t < 7,
        0 <= k < 8,
        slot_piece(step_all(cs, m, 2), s) == k,
        slot_piece(cs, t) == k,
        consistent(cs[k]),
        cs[k].orientation.0 < 24,
        on_shell(cs[k].solved_pos, 2),
        on_shell(cs[k].current_pos, 2),
    ensures
        cube_perm(step_all(cs, m, 2))[s] == cube_perm(cs)[t],
        cube_orient(step_all(cs, m, 2))[s] == ((cube_orient(cs)[t] + corner_twist_spec(
            step_cubie(solved_cubie(cs[k].current_pos), m, 2),
        )) % 3) as u8,
{
    let after = step_all(cs, m, 2);
    let c = cs[k];
    assert(after[k] == step_cubie(c, m, 2));
    assert(crate::two::first_home_at(after, after[k].solved_pos) == k) by {
        assert(homes_in_order(after)) by {
            assert forall|i: int| 0 <= i < 8 implies (#[trigger] after[i]).solved_pos == lattice_pos(2, i) by {
                assert(after[i].solved_pos == cs[i].solved_pos);
            }
        }
        lemma_homes_distinct(after);
        crate::two::lemma_first_home_found(after, k);
    }
    assert(crate::two::first_home_at(cs, cs[k].solved_pos) == k) by {
        lemma_homes_distinct(cs);
        crate::two::lemma_first_home_found(cs, k);
    }
    lemma_twist_step_two(c, m);
    assert(cube_perm(after)[s] == (crate::two::first_home_at(after, after[k].solved_pos) - 1) as u8);
    assert(cube_perm(cs)[t] == (crate::two::first_home_at(cs, cs[k].solved_pos) - 1) as u8);
    assert(cube_orient(after)[s] == corner_twist_spec(after[k]));
}

/// Slot `s` after a solver move holds what slot `src_slot(m, s)` held,
/// twisted by `twist_added(m, s)`.
#[verifier::spinoff_prover]
pub proof fn lemma_slot_step(cs: Seq<Cubie>, m: Move, s: int)
    requires
        pocket_ok(cs),
        solver_move(m),
        0 <= s < 7,
    ensures
        0 <= src_slot(m, s) < 7,
        0 <= twist_added(m, s) < 3,
        cube_perm(step_all(cs, m, 2))[s] == cube_perm(cs)[src_slot(m, s)],
        cube_orient(step_all(cs, m, 2))[s] == ((cube_orient(cs)[src_slot(m, s)] + twist_added(m, s)) % 3) as u8,
{
    lemma_slot_piece_step(cs, m, s);
    let t = src_slot(m, s);
    let k = slot_piece(cs, t);
    lemma_slot_values(cs, m, s, t, k);
}

/// Index of the first piece at `cs[k]`'s position is `k` when no two
/// pieces share a position.
#[verifier::spinoff_prover]
proof fn lemma_first_piece_found(cs: Seq<Cubie>, k: int)
    requires
        0 <= k < cs.len(),
        forall|i: int, j: int|
            0 <= i < cs.len() && 0 <= j < cs.len() && i != j ==> cs[i].current_pos != cs[j].current_pos,
    ensures
        first_piece_at(cs, cs[k].current_pos) == k,
    decreases cs.len(),
{
    let d = cs.drop_last();
    if k < cs.len() - 1 {
        assert(d[k] == cs[k]);
        lemma_first_piece_found(d, k);
    } else {
        lemma_first_piece_absent(d, cs[k].current_pos);
    }
}

#[verifier::spinoff_prover]
proof fn lemma_first_piece_absent(cs: Seq<Cubie>, p: IVec3)
    requires
        forall|i: int| 0 <= i < cs.len() ==> (#[trigger] cs[i]).current_pos != p,
    ensures
        first_piece_at(cs, p) == -1,
    decreases cs.len(),
{
    if cs.len() > 0 {
        lemma_first_piece_absent(cs.drop_last(), p);
    }
}

/// The solved 2×2 is one the solver's reading follows, and reads as every
/// slot holding its own piece, untwisted.
#[verifier::spinoff_prover]
pub proof fn lemma_solved_pocket()
    ensures
        pocket_ok(solved_two()),
        forall|t: int| 0 <= t < 7 ==> #[trigger] cube_perm(solved_two())[t] == t,
        forall|t: int| 0 <= t < 7 ==> #[trigger] cube_orient(solved_two())[t] == 0,
{
    reveal(pocket_ok);
    let s0 = solved_two();
    crate::two::lemma_visible_two();
    crate::cube::lemma_solved_wf(2);
    crate::orient::lemma_identity_law(0);
    assert(s0.len() == 8);
    assert forall|i: int| 0 <= i < 8 implies (#[trigger] s0[i]).solved_pos == lattice_pos(2, i)
        && s0[i] == solved_cubie(lattice_pos(2, i)) by {
        lemma_lattice_two(i);
    }
    assert(homes_in_order(s0));
    assert forall|i: int| 0 <= i < s0.len() implies consistent(#[trigger] s0[i]) by {
        lemma_lattice_two(i);
    }
    lemma_homes_distinct(s0);
    assert forall|t: int|
        #![trigger cube_perm(s0)[t]]
        #![trigger cube_orient(s0)[t]]
        0 <= t < 7 implies cube_perm(s0)[t] == t && cube_orient(s0)[t] == 0 by {
        lemma_lattice_two(t + 1);
        lemma_first_piece_found(s0, t + 1);
        assert(slot_piece(s0, t) == t + 1);
        crate::two::lemma_first_home_found(s0, t + 1);
    }
}

/// The solved 2×2 after a solver move reads as the move's slot operation.
#[verifier::spinoff_prover]
pub proof fn lemma_solver_move_reading(m: Move, s: int)
    requires
        solver_move(m),
        0 <= s < 7,
    ensures
        cube_perm(step_all(solved_two(), m, 2))[s] == src_slot(m, s),
        cube_orient(step_all(solved_two(), m, 2))[s] == twist_added(m, s),
        0 <= src_slot(m, s) < 7,
        0 <= twist_added(m, s) < 3,
{
    lemma_solved_pocket();
    lemma_slot_step(solved_two(), m, s);
}

/// The slot operation of a solver move: the twists it gives and the
/// slots it permutes, as sums read over the seven slots.
pub open spec fn permuted(o: Seq<u8>, m: Move) -> Seq<u8> {
    Seq::new(7, |i: int| o[src_slot(m, i)])
}

pub open spec fn twists_of(m: Move) -> Seq<u8> {
    Seq::new(7, |i: int| twist_added(m, i) as u8)
}

/// Each solver move only moves twists between slots, and the twists it
/// adds sum to a multiple of 3.
#[verifier::spinoff_prover]
#[verifier::rlimit(60)]
proof fn lemma_move_sums(k: int, o: Seq<u8>)
    requires
        0 <= k < 9,
        o.len() == 7,
    ensures
        digit_sum(permuted(o, alphabet_move(k)), 7) == digit_sum(o, 7),
        digit_sum(twists_of(alphabet_move(k)), 7) % 3 == 0,
{
    reveal_with_fuel(digit_sum, 8);
    if k == 0 {
    } else if k == 1 {
    } else if k == 2 {
    } else if k == 3 {
    } else if k == 4 {
    } else if k == 5 {
    } else if k == 6 {
    } else if k == 7 {
    } else {
    }
}

/// A solver move sends different slots to different slots.
#[verifier::spinoff_prover]
#[verifier::rlimit(60)]
proof fn lemma_src_distinct(k: int, i: int, j: int)
    requires
        0 <= k < 9,
        0 <= i < 7,
        0 <= j < 7,
        i != j,
    ensures
        src_slot(alphabet_move(k), i) != src_slot(alphabet_move(k), j),
{
    if k == 0 {
    } else if k == 1 {
    } else if k == 2 {
    } else if k == 3 {
    } else if k == 4 {
    } else if k == 5 {
    } else if k == 6 {
    } else if k == 7 {
    } else {
    }
}

/// Twists added slot by slot, each taken mod 3, add up to the two sums
/// mod 3.
proof fn lemma_sum_mod3(a: Seq<u8>, b: Seq<u8>, c: Seq<u8>, k: int)
    requires
        0 <= k <= a.len(),
        k <= b.len(),
        k <= c.len(),
        forall|i: int| 0 <= i < k ==> #[trigger] c[i] == (a[i] + b[i]) % 3,
    ensures
        digit_sum(c, k) % 3 == (digit_sum(a, k) + digit_sum(b, k)) % 3,
    decreases k,
{
    if k > 0 {
        lemma_sum_mod3(a, b, c, k - 1);
        let x = digit_sum(c, k - 1);
        let y = digit_sum(a, k - 1) + digit_sum(b, k - 1);
        let u = a[k - 1] as int;
        let v = b[k - 1] as int;
        assert((x + (u + v) % 3) % 3 == (y + u + v) % 3) by (nonlinear_arith)
            requires
                x % 3 == y % 3,
        ;
    }
}

/// A solver move keeps the reading a permutation with twists below 3
/// adding up to a multiple of 3.
pub proof fn lemma_move_keeps_valid(k: int, p: Seq<u8>, o: Seq<u8>)
    requires
        0 <= k < 9,
        crate::two::seqs_valid(p, o),
    ensures
        crate::two::seqs_valid(
            Seq::new(7, |i: int| p[src_slot(alphabet_move(k), i)]),
            Seq::new(7, |i: int| ((o[src_slot(alphabet_move(k), i)] + twist_added(alphabet_move(k), i)) % 3) as u8),
        ),
{
    let m = alphabet_move(k);
    assert(solver_move(m));
    let np = Seq::new(7, |i: int| p[src_slot(m, i)]);
    let no = Seq::new(7, |i: int| ((o[src_slot(m, i)] + twist_added(m, i)) % 3) as u8);
    assert forall|i: int| 0 <= i < 7 implies 0 <= #[trigger] src_slot(m, i) < 7 && 0 <= twist_added(m, i) < 3 by {
        lemma_solver_move_reading(m, i);
    }
    lemma_move_sums(k, o);
    assert(np.no_duplicates()) by {
        assert forall|i: int, j: int| 0 <= i < np.len() && 0 <= j < np.len() && i != j implies np[i] != np[j] by {
            lemma_src_distinct(k, i, j);
        }
    }
    let po = permuted(o, m);
    let tw = twists_of(m);
    assert forall|i: int| 0 <= i < 7 implies #[trigger] no[i] == (po[i] + tw[i]) % 3 by {
        lemma_solver_move_reading(m, i);
    }
    lemma_sum_mod3(po, tw, no, 7);
}

/// Slot `t` of a 2×2 the solver follows is read from the piece found at
/// the home of piece `t + 1`.
#[verifier::spinoff_prover]
proof fn lemma_slot_reading(cs: Seq<Cubie>, t: int)
    requires
        pocket_ok(cs),
        0 <= t < 7,
    ensures
        1 <= slot_piece(cs, t) < 8,
        cs[slot_piece(cs, t)].current_pos == lattice_pos(2, t + 1),
        cube_perm(cs)[t] == slot_piece(cs, t) - 1,
        cube_orient(cs)[t] == corner_twist_spec(cs[slot_piece(cs, t)]),
        cube_orient(cs)[t] < 3,
{
    let q = lattice_pos(2, t + 1);
    lemma_lattice_two(t + 1);
    lemma_lattice_two(0);
    assert(homes_in_order(cs) && cs[0].current_pos == ivec(-1, -1, -1) && crate::cube::occupied(cs, q)) by {
        reveal(pocket_ok);
    }
    lemma_homes_distinct(cs);
    assert(cs[t + 1].solved_pos == q);
    crate::two::lemma_first_piece_occupied(cs, q);
    crate::two::lemma_first_piece_props(cs, q);
    let k = slot_piece(cs, t);
    assert(k != 0);
    crate::two::lemma_first_home_found(cs, k);
}

/// The reading of a 2×2 the solver follows lists slots `0..7` once each,
/// with twists below 3.
#[verifier::spinoff_prover]
proof fn lemma_reading_ranges(cs: Seq<Cubie>)
    requires
        pocket_ok(cs),
    ensures
        cube_perm(cs).len() == 7,
        cube_orient(cs).len() == 7,
        cube_perm(cs).no_duplicates(),
        forall|t: int| 0 <= t < 7 ==> #[trigger] cube_perm(cs)[t] < 7 && cube_orient(cs)[t] < 3,
{
    assert forall|t: int| 0 <= t < 7 implies #[trigger] cube_perm(cs)[t] < 7 && cube_orient(cs)[t] < 3 by {
        lemma_slot_reading(cs, t);
    }
    assert forall|a: int, b: int|
        0 <= a < cube_perm(cs).len() && 0 <= b < cube_perm(cs).len() && a != b implies cube_perm(cs)[a] != cube_perm(
        cs,
    )[b] by {
        lemma_slot_reading(cs, a);
        lemma_slot_reading(cs, b);
        lemma_lattice_two(a + 1);
        lemma_lattice_two(b + 1);
    }
}

/// Moves of the solver's alphabet, as a solution lists them.
pub open spec fn solver_moves(ms: Seq<Move>) -> bool {
    forall|j: int|
        0 <= j < ms.len() ==> 0 <= op_index_of(#[trigger] ms[j]) < 9 && ms[j] == alphabet_move(op_index_of(ms[j]))
}

/// Playing solver moves on the cube reads as walking the solver's slot
/// operations from the cube's reading.
#[verifier::spinoff_prover]
pub proof fn lemma_walk_follows(s: &Solver2x2, cs: Seq<Cubie>, ms: Seq<Move>)
    requires
        s.wf(),
        pocket_ok(cs),
        solver_moves(ms),
    ensures
        pocket_ok(run_moves(cs, ms, 2)),
        walk(s.ops(), cube_perm(cs), cube_orient(cs), ms) == (
            cube_perm(run_moves(cs, ms, 2)),
            cube_orient(run_moves(cs, ms, 2)),
        ),
        seqs_valid(cube_perm(cs), cube_orient(cs)) ==> seqs_valid(
            cube_perm(run_moves(cs, ms, 2)),
            cube_orient(run_moves(cs, ms, 2)),
        ),
    decreases ms.len(),
{
    if ms.len() > 0 {
        let q = ms.drop_last();
        assert forall|j: int| 0 <= j < q.len() implies 0 <= op_index_of(#[trigger] q[j]) < 9 && q[j] == alphabet_move(
            op_index_of(q[j]),
        ) by {
            assert(q[j] == ms[j]);
        }
        lemma_walk_follows(s, cs, q);
        let m = ms.last();
        let k = op_index_of(m);
        assert(m == ms[ms.len() - 1]);
        assert(m == alphabet_move(k));
        assert(solver_move(m));
        let before = run_moves(cs, q, 2);
        let after = run_moves(cs, ms, 2);
        assert(after == step_all(before, m, 2));
        s.lemma_ops_read();
        let op = s.ops()[k].0;
        let (p1, o1) = walk(s.ops(), cube_perm(cs), cube_orient(cs), q);
        assert forall|i: int| 0 <= i < 7 implies #[trigger] op.perm@[i] == src_slot(m, i) && op.orient@[i]
            == twist_added(m, i) && cube_perm(after)[i] == p1[src_slot(m, i)] && cube_orient(after)[i] == ((o1[src_slot(
            m,
            i,
        )] + twist_added(m, i)) % 3) as u8 by {
            lemma_solver_move_reading(m, i);
            lemma_slot_step(before, m, i);
        }
        let (p2, o2) = walk(s.ops(), cube_perm(cs), cube_orient(cs), ms);
        assert(p2 =~= cube_perm(after));
        assert(o2 =~= cube_orient(after));
        lemma_pocket_step(before, m);
        if seqs_valid(cube_perm(cs), cube_orient(cs)) {
            lemma_move_keeps_valid(k, p1, o1);
            assert(Seq::new(7, |i: int| p1[src_slot(alphabet_move(k), i)]) =~= cube_perm(after));
            assert(Seq::new(7, |i: int| ((o1[src_slot(alphabet_move(k), i)] + twist_added(alphabet_move(k), i)) % 3) as u8)
                =~= cube_orient(after));
        }
    }
}

/// Every piece sits at its home with the identity rotation.
pub open spec fn pieces_home(cs: Seq<Cubie>) -> bool {
    forall|i: int|
        0 <= i < cs.len() ==> (#[trigger] cs[i]).current_pos == cs[i].solved_pos && cs[i].orientation.0 == 0
}

/// A corner of a 2×2 at its home, untwisted, where its rotation takes its
/// home, has the identity rotation: the only other rotations fixing a
/// corner turn it about its diagonal and twist it.
#[verifier::spinoff_prover]
#[verifier::rlimit(60)]
proof fn lemma_home_untwisted(c: Cubie)
    requires
        c.orientation.0 < 24,
        consistent(c),
        on_shell(c.solved_pos, 2),
        c.current_pos == c.solved_pos,
        corner_twist_spec(c) == 0,
    ensures
        c.orientation.0 == 0,
{
    lemma_shell_two(c.solved_pos);
    let r = c.orientation.0 as int;
    if r == 0 {
    } else if r == 1 {
    } else if r == 2 {
    } else if r == 3 {
    } else if r == 4 {
    } else if r == 5 {
    } else if r == 6 {
    } else if r == 7 {
    } else if r == 8 {
    } else if r == 9 {
    } else if r == 10 {
    } else if r == 11 {
    } else if r == 12 {
    } else if r == 13 {
    } else if r == 14 {
    } else if r == 15 {
    } else if r == 16 {
    } else if r == 17 {
    } else if r == 18 {
    } else if r == 19 {
    } else if r == 20 {
    } else if r == 21 {
    } else if r == 22 {
    } else if r == 23 {
    }
}

/// A 2×2 that reads as solved has every piece home with the identity
/// rotation.
#[verifier::spinoff_prover]
proof fn lemma_home_from_reading(cs: Seq<Cubie>)
    requires
        pocket_ok(cs),
        cube_perm(cs) == crate::rank::identity_pool(7),
        cube_orient(cs) == crate::two::zeros(7),
    ensures
        pieces_home(cs),
{
    reveal(pocket_ok);
    crate::orient::lemma_identity_law(0);
    assert forall|i: int| 0 <= i < cs.len() implies (#[trigger] cs[i]).current_pos == cs[i].solved_pos
        && cs[i].orientation.0 == 0 by {
        if i > 0 {
            let t = i - 1;
            lemma_slot_reading(cs, t);
            lemma_lattice_two(i);
            assert(cube_perm(cs)[t] == t);
            assert(cube_orient(cs)[t] == 0);
            assert(slot_piece(cs, t) == i);
            assert(consistent(cs[i]));
            assert(cs[i].orientation.0 < 24 && on_shell(cs[i].solved_pos, 2));
            lemma_home_untwisted(cs[i]);
        }
    }
}

/// A solution the 2×2 solver may hand back for a cube it follows, whose
/// twists add up to a multiple of 3, solves that cube: after its moves
/// every piece is home with the identity rotation.
#[verifier::spinoff_prover]
pub proof fn lemma_two_solution_solves(s: &Solver2x2, cs: Seq<Cubie>, ms: Seq<Move>)
    requires
        s.wf(),
        pocket_ok(cs),
        digit_sum(cube_orient(cs), 7) % 3 == 0,
        is_two_solution(s.ops(), cube_perm(cs), cube_orient(cs), ms),
    ensures
        pieces_home(run_moves(cs, ms, 2)),
{
    let id = crate::rank::identity_pool(7);
    let z = crate::two::zeros(7);
    lemma_reading_ranges(cs);
    assert(solver_moves(ms));
    lemma_walk_follows(s, cs, ms);
    let run = run_moves(cs, ms, 2);
    let (p, o) = walk(s.ops(), cube_perm(cs), cube_orient(cs), ms);
    assert(seqs_valid(id, z)) by {
        reveal_with_fuel(digit_sum, 8);
        assert(id.no_duplicates());
    }
    crate::two::lemma_seqs_round_trip(p, o);
    crate::two::lemma_seqs_round_trip(id, z);
    assert(encode_seqs(p, o) == encode_seqs(id, z));
    lemma_home_from_reading(run);
}

/// The solver move undoing move `k` of the alphabet: the same face turned
/// the other way.
pub open spec fn inverse_alpha(k: int) -> int {
    3 * (k / 3) + 2 - k % 3
}

/// A solver move followed by its inverse puts every slot's piece back,
/// with the twists added cancelling.
#[verifier::spinoff_prover]
#[verifier::rlimit(80)]
proof fn lemma_inverse_slots(k: int, i: int)
    requires
        0 <= k < 9,
        0 <= i < 7,
    ensures
        0 <= inverse_alpha(k) < 9,
        src_slot(alphabet_move(k), src_slot(alphabet_move(inverse_alpha(k)), i)) == i,
        (twist_added(alphabet_move(k), src_slot(alphabet_move(inverse_alpha(k)), i)) + twist_added(
            alphabet_move(inverse_alpha(k)),
            i,
        )) % 3 == 0,
{
    if k == 0 {
    } else if k == 1 {
    } else if k == 2 {
    } else if k == 3 {
    } else if k == 4 {
    } else if k == 5 {
    } else if k == 6 {
    } else if k == 7 {
    } else if k == 8 {
    }
}

/// The slot operation at position `k` of operations read from the solved
/// cube is the alphabet move's `src_slot` and `twist_added`.
pub proof fn lemma_op_is_move(ops: Seq<(crate::two::MoveOp, Move)>, k: int, s: crate::two::State2x2)
    requires
        crate::two::ops_from_solved(ops),
        0 <= k < 9,
    ensures
        crate::two::op_perm(s, ops[k].0) == Seq::new(7, |i: int| s.perm@[src_slot(alphabet_move(k), i)]),
        crate::two::op_orient(s, ops[k].0) == Seq::new(
            7,
            |i: int| ((s.orient@[src_slot(alphabet_move(k), i)] + twist_added(alphabet_move(k), i)) % 3) as u8,
        ),
{
    reveal(crate::two::ops_from_solved);
    let m = alphabet_move(k);
    assert(solver_move(m));
    assert forall|i: int| 0 <= i < 7 implies #[trigger] ops[k].0.perm@[i] == src_slot(m, i) && ops[k].0.orient@[i]
        == twist_added(m, i) by {
        lemma_solver_move_reading(m, i);
    }
    assert(crate::two::op_perm(s, ops[k].0) =~= Seq::new(7, |i: int| s.perm@[src_slot(m, i)]));
    assert(crate::two::op_orient(s, ops[k].0) =~= Seq::new(
        7,
        |i: int| ((s.orient@[src_slot(m, i)] + twist_added(m, i)) % 3) as u8,
    ));
}

/// A solver move keeps a state valid.
pub proof fn lemma_op_keeps_valid(
    ops: Seq<(crate::two::MoveOp, Move)>,
    k: int,
    s: crate::two::State2x2,
    nb: crate::two::State2x2,
)
    requires
        crate::two::ops_from_solved(ops),
        0 <= k < 9,
        crate::two::state_valid(s),
        nb.perm@ == crate::two::op_perm(s, ops[k].0),
        nb.orient@ == crate::two::op_orient(s, ops[k].0),
    ensures
        crate::two::state_valid(nb),
{
    lemma_op_is_move(ops, k, s);
    lemma_move_keeps_valid(k, s.perm@, s.orient@);
}

/// Slot `i` after a solver move and its inverse holds what it held.
#[verifier::spinoff_prover]
proof fn lemma_op_back_slot(
    ops: Seq<(crate::two::MoveOp, Move)>,
    k: int,
    s: crate::two::State2x2,
    nb: crate::two::State2x2,
    i: int,
)
    requires
        crate::two::ops_from_solved(ops),
        0 <= k < 9,
        0 <= i < 7,
        crate::two::state_valid(s),
        nb.perm@ == Seq::new(7, |x: int| s.perm@[src_slot(alphabet_move(k), x)]),
        nb.orient@ == Seq::new(
            7,
            |x: int| ((s.orient@[src_slot(alphabet_move(k), x)] + twist_added(alphabet_move(k), x)) % 3) as u8,
        ),
    ensures
        nb.perm@[src_slot(alphabet_move(inverse_alpha(k)), i)] == s.perm@[i],
        ((nb.orient@[src_slot(alphabet_move(inverse_alpha(k)), i)] + twist_added(alphabet_move(inverse_alpha(k)), i))
            % 3) as u8 == s.orient@[i],
{
    let j = inverse_alpha(k);
    lemma_inverse_slots(k, i);
    let m = alphabet_move(k);
    let mj = alphabet_move(j);
    assert(solver_move(mj) && solver_move(m));
    lemma_solver_move_reading(mj, i);
    let x = src_slot(mj, i);
    lemma_solver_move_reading(m, x);
    let o = s.orient@[i] as int;
    let a = twist_added(m, x);
    let b = twist_added(mj, i);
    assert(((o + a) % 3 + b) % 3 == o) by (nonlinear_arith)
        requires
            0 <= o < 3,
            (a + b) % 3 == 0,
            0 <= a < 3,
            0 <= b < 3,
    ;
}

/// The inverse move's operation takes a neighbour back to the state.
#[verifier::spinoff_prover]
proof fn lemma_op_back(
    ops: Seq<(crate::two::MoveOp, Move)>,
    k: int,
    s: crate::two::State2x2,
    nb: crate::two::State2x2,
)
    requires
        crate::two::ops_from_solved(ops),
        0 <= k < 9,
        crate::two::state_valid(s),
        nb.perm@ == crate::two::op_perm(s, ops[k].0),
        nb.orient@ == crate::two::op_orient(s, ops[k].0),
    ensures
        0 <= inverse_alpha(k) < 9,
        crate::two::op_perm(nb, ops[inverse_alpha(k)].0) == s.perm@,
        crate::two::op_orient(nb, ops[inverse_alpha(k)].0) == s.orient@,
{
    let j = inverse_alpha(k);
    lemma_inverse_slots(k, 0);
    lemma_op_is_move(ops, k, s);
    lemma_op_is_move(ops, j, nb);
    assert forall|i: int| 0 <= i < 7 implies #[trigger] crate::two::op_perm(nb, ops[j].0)[i] == s.perm@[i]
        && crate::two::op_orient(nb, ops[j].0)[i] == s.orient@[i] by {
        lemma_op_back_slot(ops, k, s, nb, i);
    }
    assert(crate::two::op_perm(nb, ops[j].0) =~= s.perm@);
    assert(crate::two::op_orient(nb, ops[j].0) =~= s.orient@);
}

/// The operations read from the solved cube keep states in range.
pub proof fn lemma_ops_ok(ops: Seq<(crate::two::MoveOp, Move)>, k: int)
    requires
        crate::two::ops_from_solved(ops),
        0 <= k < 9,
    ensures
        crate::two::op_ok(ops[k].0),
        ops.len() == 9,
{
    reveal(crate::two::ops_from_solved);
}

/// The recorded neighbour descends through the inverse move to the state
/// it was reached from.
#[verifier::spinoff_prover]
proof fn lemma_descent_at_new(
    t: Seq<u8>,
    ops: Seq<(crate::two::MoveOp, Move)>,
    s: crate::two::State2x2,
    k: int,
    nb: crate::two::State2x2,
    d: u8,
    x: crate::two::State2x2,
)
    requires
        crate::two::ops_from_solved(ops),
        crate::two::state_valid(s),
        t[crate::two::index_spec(s)] == d,
        d < 254,
        0 <= k < 9,
        nb.perm@ == crate::two::op_perm(s, ops[k].0),
        nb.orient@ == crate::two::op_orient(s, ops[k].0),
        t[crate::two::index_spec(nb)] == crate::two::UNREACHED,
        t.len() == crate::two::NUM_2X2_STATES,
        crate::two::state_valid(x),
        crate::two::index_spec(x) == crate::two::index_spec(nb),
    ensures
        ({
            let t2 = t.update(crate::two::index_spec(nb), (d + 1) as u8);
            exists|j: int| 0 <= j < 9 && #[trigger] crate::two::descent_entry(t2, x, ops[j].0) == t2[crate::two::index_spec(x)] - 1
        }),
{
    let idx = crate::two::index_spec(nb);
    let t2 = t.update(idx, (d + 1) as u8);
    lemma_op_keeps_valid(ops, k, s, nb);
    lemma_op_back(ops, k, s, nb);
    crate::two::lemma_index_round_trip(nb);
    crate::two::lemma_index_round_trip(x);
    crate::two::lemma_index_bound(nb);
    crate::two::lemma_index_bound(s);
    assert(x.perm@ == nb.perm@ && x.orient@ == nb.orient@);
    let j = inverse_alpha(k);
    assert(crate::two::op_perm(x, ops[j].0) =~= crate::two::op_perm(nb, ops[j].0));
    assert(crate::two::op_orient(x, ops[j].0) =~= crate::two::op_orient(nb, ops[j].0));
    assert(crate::two::index_spec(s) != idx);
    assert(crate::two::descent_entry(t2, x, ops[j].0) == t2[crate::two::index_spec(s)]);
}

/// A state whose entry stays keeps its descent: the entry it descends to
/// is not [`crate::two::UNREACHED`], so it stays too.
#[verifier::spinoff_prover]
proof fn lemma_descent_at_old(
    t: Seq<u8>,
    ops: Seq<(crate::two::MoveOp, Move)>,
    idx: int,
    v: u8,
    x: crate::two::State2x2,
)
    requires
        crate::two::descent_ok(t, ops),
        crate::two::ops_from_solved(ops),
        t[idx] == crate::two::UNREACHED,
        0 <= idx < t.len(),
        t.len() == crate::two::NUM_2X2_STATES,
        crate::two::state_valid(x),
        crate::two::index_spec(x) != idx,
        0 < t[crate::two::index_spec(x)],
        t[crate::two::index_spec(x)] != crate::two::UNREACHED,
    ensures
        ({
            let t2 = t.update(idx, v);
            exists|j: int| 0 <= j < 9 && #[trigger] crate::two::descent_entry(t2, x, ops[j].0) == t2[crate::two::index_spec(x)] - 1
        }),
{
    reveal(crate::two::descent_ok);
    let t2 = t.update(idx, v);
    let ix = crate::two::index_spec(x);
    crate::two::lemma_index_bound(x);
    assert(t[ix] == t2[ix]);
    let j = choose|j: int| 0 <= j < 9 && #[trigger] crate::two::descent_entry(t, x, ops[j].0) == t[ix] - 1;
    lemma_ops_ok(ops, j);
    crate::two::lemma_encode_bound(crate::two::op_perm(x, ops[j].0), crate::two::op_orient(x, ops[j].0));
    assert(crate::two::descent_entry(t2, x, ops[j].0) == crate::two::descent_entry(t, x, ops[j].0));
}

/// Recording a neighbour of a state one entry further keeps every valid
/// state's descent.
#[verifier::spinoff_prover]
pub proof fn lemma_descent_set(
    t: Seq<u8>,
    ops: Seq<(crate::two::MoveOp, Move)>,
    s: crate::two::State2x2,
    k: int,
    nb: crate::two::State2x2,
    d: u8,
)
    requires
        crate::two::descent_ok(t, ops),
        crate::two::ops_from_solved(ops),
        crate::two::state_valid(s),
        t[crate::two::index_spec(s)] == d,
        d < 254,
        0 <= k < 9,
        nb.perm@ == crate::two::op_perm(s, ops[k].0),
        nb.orient@ == crate::two::op_orient(s, ops[k].0),
        t[crate::two::index_spec(nb)] == crate::two::UNREACHED,
        t.len() == crate::two::NUM_2X2_STATES,
    ensures
        crate::two::descent_ok(t.update(crate::two::index_spec(nb), (d + 1) as u8), ops),
        crate::two::state_valid(nb),
{
    let idx = crate::two::index_spec(nb);
    let t2 = t.update(idx, (d + 1) as u8);
    lemma_op_keeps_valid(ops, k, s, nb);
    crate::two::lemma_index_bound(nb);
    assert forall|x: crate::two::State2x2|
        #![trigger t2[crate::two::index_spec(x)]]
        crate::two::state_valid(x) && 0 < t2[crate::two::index_spec(x)] && t2[crate::two::index_spec(x)]
            != crate::two::UNREACHED implies exists|j: int|
        0 <= j < 9 && #[trigger] crate::two::descent_entry(t2, x, ops[j].0) == t2[crate::two::index_spec(x)] - 1 by {
        if crate::two::index_spec(x) == idx {
            lemma_descent_at_new(t, ops, s, k, nb, d, x);
        } else {
            crate::two::lemma_index_bound(x);
            lemma_descent_at_old(t, ops, idx, (d + 1) as u8, x);
        }
    }
    reveal(crate::two::descent_ok);
}

/// A 2×2 the solver follows has its DBL corner home and every slot
/// filled, and reads as a permutation of the slots with twists below 3.
pub proof fn lemma_pocket_reading(cs: Seq<Cubie>)
    requires
        pocket_ok(cs),
    ensures
        dbl_home(cs[0]),
        crate::two::slots_filled(cs),
        cube_perm(cs).no_duplicates(),
        forall|t: int| 0 <= t < 7 ==> #[trigger] cube_perm(cs)[t] < 7 && cube_orient(cs)[t] < 3,
{
    lemma_reading_ranges(cs);
    assert(dbl_home(cs[0])) by {
        reveal(pocket_ok);
    }
    assert forall|t: int| 0 <= t < 7 implies #[trigger] slot_piece(cs, t) >= 0 by {
        lemma_slot_reading(cs, t);
    }
}

/// Slot operation `k` read from the solved cube is the alphabet move's
/// `src_slot` and `twist_added`, on any reading.
proof fn lemma_step_is_move(ops: Seq<(crate::two::MoveOp, Move)>, k: int, p: Seq<u8>, o: Seq<u8>)
    requires
        crate::two::ops_from_solved(ops),
        0 <= k < 9,
    ensures
        crate::two::step_seqs(p, o, ops[k].0) == (
            Seq::new(7, |i: int| p[src_slot(alphabet_move(k), i)]),
            Seq::new(7, |i: int| ((o[src_slot(alphabet_move(k), i)] + twist_added(alphabet_move(k), i)) % 3) as u8),
        ),
{
    reveal(crate::two::ops_from_solved);
    let m = alphabet_move(k);
    assert(solver_move(m));
    assert forall|i: int| 0 <= i < 7 implies #[trigger] ops[k].0.perm@[i] == src_slot(m, i) && ops[k].0.orient@[i]
        == twist_added(m, i) by {
        lemma_solver_move_reading(m, i);
    }
    assert(crate::two::step_seqs(p, o, ops[k].0).0 =~= Seq::new(7, |i: int| p[src_slot(m, i)]));
    assert(crate::two::step_seqs(p, o, ops[k].0).1 =~= Seq::new(
        7,
        |i: int| ((o[src_slot(m, i)] + twist_added(m, i)) % 3) as u8,
    ));
}

/// A solver move on a valid reading, followed by its inverse, gives the
/// reading back, and keeps it valid on the way.
#[verifier::spinoff_prover]
proof fn lemma_step_back(ops: Seq<(crate::two::MoveOp, Move)>, k: int, p: Seq<u8>, o: Seq<u8>)
    requires
        crate::two::ops_from_solved(ops),
        0 <= k < 9,
        seqs_valid(p, o),
    ensures
        0 <= inverse_alpha(k) < 9,
        seqs_valid(crate::two::step_seqs(p, o, ops[k].0).0, crate::two::step_seqs(p, o, ops[k].0).1),
        ({
            let (p1, o1) = crate::two::step_seqs(p, o, ops[k].0);
            crate::two::step_seqs(p1, o1, ops[inverse_alpha(k)].0) == (p, o)
        }),
{
    let j = inverse_alpha(k);
    lemma_inverse_slots(k, 0);
    lemma_step_is_move(ops, k, p, o);
    lemma_move_keeps_valid(k, p, o);
    let (p1, o1) = crate::two::step_seqs(p, o, ops[k].0);
    lemma_step_is_move(ops, j, p1, o1);
    let m = alphabet_move(k);
    let mj = alphabet_move(j);
    assert forall|i: int| 0 <= i < 7 implies #[trigger] p1[src_slot(mj, i)] == p[i] && ((o1[src_slot(mj, i)]
        + twist_added(mj, i)) % 3) as u8 == o[i] by {
        lemma_inverse_slots(k, i);
        assert(solver_move(mj) && solver_move(m));
        lemma_solver_move_reading(mj, i);
        let x = src_slot(mj, i);
        lemma_solver_move_reading(m, x);
        let oi = o[i] as int;
        let a = twist_added(m, x);
        let b = twist_added(mj, i);
        assert(((oi + a) % 3 + b) % 3 == oi) by (nonlinear_arith)
            requires
                0 <= oi < 3,
                (a + b) % 3 == 0,
                0 <= a < 3,
                0 <= b < 3,
        ;
    }
    let (p2, o2) = crate::two::step_seqs(p1, o1, ops[j].0);
    assert(p2 =~= p);
    assert(o2 =~= o);
}

/// Walking a sequence that starts with `m` is walking the rest from the
/// reading after `m`.
proof fn lemma_walk_front(ops: Seq<(crate::two::MoveOp, Move)>, p: Seq<u8>, o: Seq<u8>, m: Move, rest: Seq<Move>)
    ensures
        walk(ops, p, o, seq![m] + rest) == ({
            let (p1, o1) = crate::two::step_seqs(p, o, ops[op_index_of(m)].0);
            walk(ops, p1, o1, rest)
        }),
    decreases rest.len(),
{
    let (p1, o1) = crate::two::step_seqs(p, o, ops[op_index_of(m)].0);
    let ms = seq![m] + rest;
    if rest.len() == 0 {
        assert(ms =~= seq![m]);
        assert(ms.drop_last() =~= Seq::<Move>::empty());
        assert(walk(ops, p, o, ms.drop_last()) == (p, o));
        let w = walk(ops, p, o, ms);
        assert(w.0 =~= p1);
        assert(w.1 =~= o1);
    } else {
        lemma_walk_front(ops, p, o, m, rest.drop_last());
        assert(ms.drop_last() =~= seq![m] + rest.drop_last());
        assert(ms.last() == rest.last());
        let w = walk(ops, p, o, ms);
        let v = walk(ops, p1, o1, rest);
        assert(walk(ops, p, o, ms.drop_last()) == walk(ops, p1, o1, rest.drop_last()));
        assert(w.0 =~= v.0);
        assert(w.1 =~= v.1);
    }
}

/// No sequence of solver moves shorter than 254 takes a valid reading to
/// solved in fewer moves than the reading's table entry: the entry is a
/// lower bound on the number of moves.
#[verifier::spinoff_prover]
pub proof fn lemma_entry_lower_bound(s: &Solver2x2, p: Seq<u8>, o: Seq<u8>, ms: Seq<Move>)
    requires
        s.wf(),
        seqs_valid(p, o),
        is_two_solution(s.ops(), p, o, ms),
        ms.len() < 254,
    ensures
        s.table()[encode_seqs(p, o)] <= ms.len(),
    decreases ms.len(),
{
    s.lemma_table_facts();
    let t = s.table();
    let ops = s.ops();
    if ms.len() == 0 {
        crate::two::lemma_seqs_round_trip(p, o);
    } else {
        let m = ms[0];
        let k = op_index_of(m);
        let rest = ms.subrange(1, ms.len() as int);
        assert(ms =~= seq![m] + rest);
        lemma_walk_front(ops, p, o, m, rest);
        lemma_step_back(ops, k, p, o);
        let (p1, o1) = crate::two::step_seqs(p, o, ops[k].0);
        assert forall|j: int| 0 <= j < rest.len() implies 0 <= op_index_of(#[trigger] rest[j]) < 9 && rest[j]
            == alphabet_move(op_index_of(rest[j])) by {
            assert(rest[j] == ms[j + 1]);
        }
        lemma_entry_lower_bound(s, p1, o1, rest);
        let j = inverse_alpha(k);
        assert(crate::two::entry_after(t, p1, o1, ops[j].0) <= t[encode_seqs(p1, o1)] + 1) by {
            reveal(crate::two::neighbors_ok);
        }
    }
}

} // verus!
