//! The state view of a 3×3 follows the cube: reading the view after a face
//! move gives what the move tables say the move does to the view, so a
//! path the solver finds over the tables solves the cube itself.

use vstd::prelude::*;
use crate::cube::{Cubie, affected, visible_spec, lemma_rotation_keeps_axis, piece_ok, pieces_ok, run_moves, step_all, step_cubie};
use crate::moves::{Move, lemma_move_rotation, move_inverse, move_rotation};
use crate::orient::{apply_rot, inverse_idx, rot_of};
use crate::three::moves::{CornerMoveOp, EdgeMoveOp, solved_three};
use crate::moves::cancel_spec;
use crate::three::solver::{Solver3x3, cube_view, face_moves, is_solution};
use crate::three::tables::{in_g1_view, solved_view};
use crate::three::tables::step_view;
use crate::three::state::{corner_home, corner_index, corner_piece, cube_corners, cube_edges, edge_home, edge_index, edge_piece, kinds_match};
use crate::validation::first_piece_at;
use crate::vec3::{IVec3, bounded};

verus! {

/// Where the piece that a move brings to `q` was before the move, on a
/// size-`n` cube.
pub open spec fn pre_pos(m: Move, n: int, q: IVec3) -> IVec3 {
    if affected(m, n, q) {
        apply_rot(rot_of(inverse_idx(move_rotation(m))), q)
    } else {
        q
    }
}

/// A move brings a piece to `q` exactly when the piece sat at `pre_pos(q)`.
proof fn lemma_lands_at(c: Cubie, m: Move, n: int, q: IVec3)
    requires
        piece_ok(c),
        bounded(q, 0x7fff_ffff),
    ensures
        (step_cubie(c, m, n).current_pos == q) == (c.current_pos == pre_pos(m, n, q)),
{
    let r = move_rotation(m);
    lemma_move_rotation(m);
    lemma_move_rotation(move_inverse(m));
    crate::orient::lemma_inverse_law(r);
    crate::orient::lemma_inverse_idx_in_group(r);
    let p = c.current_pos;
    lemma_rotation_keeps_axis(m, p);
    lemma_rotation_keeps_axis(move_inverse(m), q);
    crate::orient::lemma_apply_inverse(r, p);
    crate::orient::lemma_apply_inverse(inverse_idx(r), q);
    assert(crate::moves::affected_coords_spec(move_inverse(m), n) == crate::moves::affected_coords_spec(m, n));
}

/// The first piece at `q` after a move is the first piece that was at
/// `pre_pos(q)` before it.
pub proof fn lemma_first_after_step(cs: Seq<Cubie>, m: Move, n: int, q: IVec3)
    requires
        pieces_ok(cs),
        bounded(q, 0x7fff_ffff),
    ensures
        first_piece_at(step_all(cs, m, n), q) == first_piece_at(cs, pre_pos(m, n, q)),
    decreases cs.len(),
{
    if cs.len() > 0 {
        let rest = cs.drop_last();
        assert(step_all(cs, m, n).drop_last() =~= step_all(rest, m, n));
        lemma_first_after_step(rest, m, n, q);
        assert(piece_ok(cs.last()));
        lemma_lands_at(cs.last(), m, n, q);
    }
}

/// The piece's position is its home turned by its rotation.
pub open spec fn consistent(c: Cubie) -> bool {
    c.current_pos == apply_rot(rot_of(c.orientation.0 as int), c.solved_pos)
}

pub open spec fn all_consistent(cs: Seq<Cubie>) -> bool {
    forall|i: int| 0 <= i < cs.len() ==> consistent(#[trigger] cs[i])
}

/// Twist of a corner at `pos` whose U/D sticker faces `up`.
pub open spec fn twist_of(up: IVec3, pos: IVec3) -> int {
    let axis = crate::cube::twist_axis(up);
    let parity = crate::cube::position_parity(pos);
    if axis == 1 {
        0
    } else if axis == 0 {
        if parity == 1 {
            1
        } else {
            2
        }
    } else {
        if parity == 1 {
            2
        } else {
            1
        }
    }
}

/// `a` is the outward unit vector of corner position `p` along one axis.
pub open spec fn outward_at(a: IVec3, p: IVec3) -> bool {
    ||| a == crate::vec3::ivec(if p.x > 0 { 1 } else { -1 }, 0, 0)
    ||| a == crate::vec3::ivec(0, if p.y > 0 { 1 } else { -1 }, 0)
    ||| a == crate::vec3::ivec(0, 0, if p.z > 0 { 1 } else { -1 })
}

/// A face turn changes the twist of a corner by the twist it gives the
/// solved piece in the same place.
proof fn lemma_twist_geometry(r: int, p: IVec3, a: IVec3)
    requires
        r == 6 || r == 7 || r == 2 || r == 23 || r == 21 || r == 1 || r == 9 || r == 10 || r == 3,
        crate::three::moves::is_corner_pos(p),
        outward_at(a, p),
    ensures
        twist_of(apply_rot(rot_of(r), a), apply_rot(rot_of(r), p)) == (twist_of(a, p) + twist_of(
            apply_rot(rot_of(r), crate::vec3::ivec(0, if p.y > 0 { 1 } else { -1 }, 0)),
            apply_rot(rot_of(r), p),
        )) % 3,
{
}

proof fn lemma_twist_reads(c: Cubie)
    ensures
        crate::cube::corner_twist_spec(c) == twist_of(
            apply_rot(rot_of(c.orientation.0 as int), crate::cube::home_up(c)),
            c.current_pos,
        ),
{
}

/// The U/D sticker of a consistent corner faces outward from its position.
proof fn lemma_up_outward(c: Cubie)
    requires
        c.orientation.0 < 24,
        consistent(c),
        crate::three::moves::is_corner_pos(c.solved_pos),
    ensures
        outward_at(apply_rot(rot_of(c.orientation.0 as int), crate::cube::home_up(c)), c.current_pos),
{
    crate::orient::lemma_rot_is_rot(c.orientation.0 as int);
}

/// A face turn adds to a consistent corner's twist the twist it gives the
/// solved piece at the same position.
pub proof fn lemma_twist_step(c: Cubie, m: Move)
    requires
        c.orientation.0 < 24,
        consistent(c),
        crate::three::moves::is_corner_pos(c.solved_pos),
        crate::three::moves::is_corner_pos(c.current_pos),
        m.depth == 1,
        !m.wide,
    ensures
        crate::cube::corner_twist_spec(step_cubie(c, m, 3)) == (crate::cube::corner_twist_spec(c)
            + crate::cube::corner_twist_spec(step_cubie(crate::cube::solved_cubie(c.current_pos), m, 3))) % 3,
{
    let p = c.current_pos;
    let sc = crate::cube::solved_cubie(p);
    let o = c.orientation.0 as int;
    let r = move_rotation(m);
    lemma_move_rotation(m);
    lemma_twist_reads(c);
    lemma_twist_reads(step_cubie(c, m, 3));
    lemma_twist_reads(sc);
    lemma_twist_reads(step_cubie(sc, m, 3));
    crate::orient::lemma_identity_law(r);
    crate::orient::lemma_identity_law(0);
    lemma_up_outward(c);
    let up = crate::cube::home_up(c);
    let a = apply_rot(rot_of(o), up);
    if affected(m, 3, p) {
        crate::orient::lemma_apply_compose_law(r, o, up);
        crate::orient::lemma_compose_idx_in_group(r, o);
        assert(r == 6 || r == 7 || r == 2 || r == 23 || r == 21 || r == 1 || r == 9 || r == 10 || r == 3);
        lemma_twist_geometry(r, p, a);
    }
}

/// In a solved 3×3 the first piece at a shell position is the solved
/// piece of that position.
proof fn lemma_solved_three_at(q: IVec3)
    requires
        crate::cube::on_shell(q, 3),
    ensures
        0 <= first_piece_at(solved_three(), q) < solved_three().len(),
        solved_three()[first_piece_at(solved_three(), q)] == crate::cube::solved_cubie(q),
{
    let s0 = solved_three();
    crate::cube::lemma_solved_wf(3);
    assert(kinds_match(s0));
    crate::three::state::lemma_piece_at_home(s0, q);
}

/// Where the piece a move brings to a corner or edge home came from is a
/// home of the same kind.
proof fn lemma_pre_home(m: Move, q: IVec3)
    requires
        crate::cube::on_shell(q, 3),
    ensures
        crate::cube::on_shell(pre_pos(m, 3, q), 3),
        bounded(pre_pos(m, 3, q), 2),
        (corner_index(pre_pos(m, 3, q)) >= 0) == (corner_index(q) >= 0),
        (edge_index(pre_pos(m, 3, q)) >= 0) == (edge_index(q) >= 0),
        affected(m, 3, pre_pos(m, 3, q)) == affected(m, 3, q),
{
    let r = move_rotation(m);
    lemma_move_rotation(m);
    lemma_move_rotation(move_inverse(m));
    crate::orient::lemma_inverse_idx_in_group(r);
    if affected(m, 3, q) {
        crate::three::moves::lemma_rot_keeps_kind(inverse_idx(r), q);
        crate::cube::lemma_rot_keeps_shell(inverse_idx(r), q, 3);
        crate::orient::lemma_apply_bounded(inverse_idx(r), q, 2);
        lemma_rotation_keeps_axis(move_inverse(m), q);
        assert(crate::moves::affected_coords_spec(move_inverse(m), 3) == crate::moves::affected_coords_spec(m, 3));
    }
}

/// A face turn moves every edge of its layer.
proof fn lemma_edge_moved(m: Move, q: IVec3)
    requires
        crate::three::moves::is_edge_pos(q),
        affected(m, 3, q),
        m.depth == 1,
        !m.wide,
    ensures
        pre_pos(m, 3, q) != q,
{
    lemma_move_rotation(m);
    lemma_move_rotation(move_inverse(m));
}

/// The piece a face move brings to a home is the moved piece of the home
/// it came from.
proof fn lemma_piece_after(cs: Seq<Cubie>, m: Move, q: IVec3)
    requires
        crate::cube::cubies_wf(cs, 3),
        kinds_match(cs),
        crate::cube::on_shell(q, 3),
    ensures
        0 <= first_piece_at(cs, pre_pos(m, 3, q)) < cs.len(),
        first_piece_at(step_all(cs, m, 3), q) == first_piece_at(cs, pre_pos(m, 3, q)),
        step_all(cs, m, 3)[first_piece_at(step_all(cs, m, 3), q)] == step_cubie(
            cs[first_piece_at(cs, pre_pos(m, 3, q))],
            m,
            3,
        ),
        cs[first_piece_at(cs, pre_pos(m, 3, q))].current_pos == pre_pos(m, 3, q),
        cs[first_piece_at(cs, pre_pos(m, 3, q))].orientation.0 < 24,
        step_all(solved_three(), m, 3)[first_piece_at(step_all(solved_three(), m, 3), q)] == step_cubie(
            crate::cube::solved_cubie(pre_pos(m, 3, q)),
            m,
            3,
        ),
{
    crate::cube::lemma_wf_pieces_ok(cs, 3);
    lemma_pre_home(m, q);
    lemma_first_after_step(cs, m, 3, q);
    crate::three::state::lemma_piece_at_home(cs, pre_pos(m, 3, q));
    let s0 = solved_three();
    crate::cube::lemma_solved_wf(3);
    crate::cube::lemma_wf_pieces_ok(s0, 3);
    lemma_first_after_step(s0, m, 3, q);
    lemma_solved_three_at(pre_pos(m, 3, q));
}

proof fn lemma_corner_index_home(p: IVec3)
    requires
        corner_index(p) >= 0,
    ensures
        0 <= corner_index(p) < 8,
        corner_home(corner_index(p)) == p,
        crate::three::moves::is_corner_pos(p),
{
    crate::three::moves::lemma_kind_shapes(p);
}

/// Corner slot `s` after a face move, read from the slot its piece came
/// from and from the solved cube after the same move.
#[verifier::spinoff_prover]
proof fn lemma_corner_slot(cs: Seq<Cubie>, m: Move, s: int)
    requires
        crate::cube::cubies_wf(cs, 3),
        kinds_match(cs),
        all_consistent(cs),
        m.depth == 1,
        !m.wide,
        0 <= s < 8,
    ensures
        ({
            let after = cube_corners(step_all(cs, m, 3));
            let ref_after = cube_corners(step_all(solved_three(), m, 3));
            let src = ref_after.0[s] as int;
            &&& 0 <= src < 8
            &&& after.0[s] == cube_corners(cs).0[src]
            &&& after.1[s] == ((cube_corners(cs).1[src] + ref_after.1[s]) % 3) as u8
        }),
{
    let q = corner_home(s);
    crate::three::state::lemma_homes_on_shell(s);
    crate::three::moves::lemma_kind_shapes(q);
    lemma_piece_after(cs, m, q);
    let pre = pre_pos(m, 3, q);
    lemma_pre_home(m, q);
    lemma_corner_index_home(pre);
    let k = corner_index(pre);
    let j = first_piece_at(cs, pre);
    let c = cs[j];
    assert(corner_piece(cs, k) == c);
    let moved_ref = step_cubie(crate::cube::solved_cubie(pre), m, 3);
    assert(corner_piece(step_all(solved_three(), m, 3), s) == moved_ref);
    assert(corner_piece(step_all(cs, m, 3), s) == step_cubie(c, m, 3));
    assert(cube_corners(step_all(solved_three(), m, 3)).0[s] == corner_index(pre) as u8);
    crate::three::state::lemma_piece_at_home(cs, pre);
    lemma_corner_index_home(c.solved_pos);
    assert(consistent(c));
    lemma_twist_step(c, m);
}

proof fn lemma_edge_index_home(p: IVec3)
    requires
        edge_index(p) >= 0,
    ensures
        0 <= edge_index(p) < 12,
        edge_home(edge_index(p)) == p,
        crate::three::moves::is_edge_pos(p),
{
    crate::three::moves::lemma_kind_shapes(p);
}

/// An edge's flip depends on its home and its rotation only.
proof fn lemma_flip_reads(c: Cubie)
    requires
        edge_home(edge_index(c.solved_pos)) == c.solved_pos,
    ensures
        crate::cube::edge_orient_spec(c) == crate::three::tables::edge_flip(
            edge_index(c.solved_pos),
            c.orientation.0 as int,
        ),
{
}

/// Edge slot `s` after a face move: the piece comes from the slot the
/// solved cube's move shows, turned by the move when it changed slots,
/// with its flip read again.
#[verifier::spinoff_prover]
#[verifier::rlimit(40)]
proof fn lemma_edge_slot(cs: Seq<Cubie>, m: Move, s: int)
    requires
        crate::cube::cubies_wf(cs, 3),
        kinds_match(cs),
        m.depth == 1,
        !m.wide,
        0 <= s < 12,
    ensures
        ({
            let after = cube_edges(step_all(cs, m, 3));
            let ref_after = cube_edges(step_all(solved_three(), m, 3));
            let src = ref_after.0[s] as int;
            &&& 0 <= src < 12
            &&& after.0[s] == cube_edges(cs).0[src]
            &&& after.2[s] == (if src != s {
                crate::orient::compose_idx(move_rotation(m), cube_edges(cs).2[src] as int) as u8
            } else {
                cube_edges(cs).2[src]
            })
            &&& after.1[s] == crate::three::tables::edge_flip(cube_edges(cs).0[src] as int, after.2[s] as int)
        }),
{
    let q = edge_home(s);
    crate::three::state::lemma_homes_on_shell(s);
    crate::three::moves::lemma_kind_shapes(q);
    lemma_piece_after(cs, m, q);
    let pre = pre_pos(m, 3, q);
    lemma_pre_home(m, q);
    lemma_edge_index_home(pre);
    let k = edge_index(pre);
    let j = first_piece_at(cs, pre);
    let c = cs[j];
    assert(edge_piece(cs, k) == c);
    let moved_ref = step_cubie(crate::cube::solved_cubie(pre), m, 3);
    assert(edge_piece(step_all(solved_three(), m, 3), s) == moved_ref);
    assert(edge_piece(step_all(cs, m, 3), s) == step_cubie(c, m, 3));
    assert(cube_edges(step_all(solved_three(), m, 3)).0[s] == edge_index(pre) as u8);
    crate::three::state::lemma_piece_at_home(cs, pre);
    lemma_edge_index_home(c.solved_pos);
    lemma_flip_reads(step_cubie(c, m, 3));
    if affected(m, 3, q) {
        lemma_edge_moved(m, q);
        assert(k != s);
    } else {
        assert(pre == q);
        assert(k == s);
    }
}

/// A move keeps every piece's position its home turned by its rotation.
pub proof fn lemma_step_keeps_consistent(cs: Seq<Cubie>, m: Move, n: int)
    requires
        crate::cube::cubies_wf(cs, n),
        all_consistent(cs),
    ensures
        all_consistent(step_all(cs, m, n)),
{
    let r = move_rotation(m);
    lemma_move_rotation(m);
    let out = step_all(cs, m, n);
    assert forall|i: int| 0 <= i < out.len() implies consistent(#[trigger] out[i]) by {
        let c = cs[i];
        assert(consistent(c));
        assert(c.orientation.0 < 24 && crate::cube::on_shell(c.solved_pos, n));
        if affected(m, n, c.current_pos) {
            crate::orient::lemma_apply_compose_law(r, c.orientation.0 as int, c.solved_pos);
            crate::orient::lemma_compose_idx_in_group(r, c.orientation.0 as int);
        }
    }
}

/// Every piece of a solved cube sits at its home with the identity
/// rotation, and moves keep it that way: any cube reached from solved by
/// moves has consistent pieces.
pub proof fn lemma_reached_consistent(s: Seq<Move>)
    ensures
        all_consistent(run_moves(solved_three(), s, 3)),
    decreases s.len(),
{
    let s0 = solved_three();
    crate::cube::lemma_solved_wf(3);
    if s.len() == 0 {
        assert forall|i: int| 0 <= i < s0.len() implies consistent(#[trigger] s0[i]) by {
            crate::orient::lemma_identity_law(0);
            assert(s0[i] == crate::cube::solved_cubie(visible_spec(3)[i]));
            assert(s0[i].orientation.0 < 24 && crate::cube::on_shell(s0[i].current_pos, 3));
        }
    } else {
        lemma_reached_consistent(s.drop_last());
        crate::cube::lemma_run_keeps_wf(s0, s.drop_last(), 3);
        lemma_step_keeps_consistent(run_moves(s0, s.drop_last(), 3), s.last(), 3);
    }
}

/// The move tables' reading of a face move, taken from the solved cube.
pub open spec fn ops_read(cop: CornerMoveOp, eop: EdgeMoveOp, m: Move) -> bool {
    &&& (cop.perm@, cop.orient@) == cube_corners(step_all(solved_three(), m, 3))
    &&& eop.perm@ == cube_edges(step_all(solved_three(), m, 3)).0
    &&& eop.move_rot == move_rotation(m)
    &&& forall|s: int| 0 <= s < 12 ==> eop.in_cycle@[s] == (eop.perm@[s] != s)
}

/// The state view of a cube after a face move is the view before it
/// moved by the move's operations.
pub proof fn lemma_view_step(cs: Seq<Cubie>, m: Move, cop: CornerMoveOp, eop: EdgeMoveOp)
    requires
        crate::cube::cubies_wf(cs, 3),
        kinds_match(cs),
        all_consistent(cs),
        m.depth == 1,
        !m.wide,
        ops_read(cop, eop, m),
    ensures
        cube_view(step_all(cs, m, 3)) == step_view(cube_view(cs), cop, eop),
{
    let v = cube_view(cs);
    let w = cube_view(step_all(cs, m, 3));
    let sv = step_view(v, cop, eop);
    assert forall|s: int| 0 <= s < 8 implies w.cp[s] == sv.cp[s] && w.co[s] == sv.co[s] by {
        lemma_corner_slot(cs, m, s);
    }
    assert forall|s: int| 0 <= s < 12 implies w.ep[s] == sv.ep[s] && w.eo[s] == sv.eo[s] && w.er[s] == sv.er[s] by {
        lemma_edge_slot(cs, m, s);
    }
    assert(w.cp =~= sv.cp);
    assert(w.co =~= sv.co);
    assert(w.ep =~= sv.ep);
    assert(w.eo =~= sv.eo);
    assert(w.er =~= sv.er);
}

/// A 3×3 stays well formed, with matching kinds and consistent pieces,
/// under a face move.
proof fn lemma_step_keeps_valid(cs: Seq<Cubie>, m: Move)
    requires
        crate::cube::cubies_wf(cs, 3),
        kinds_match(cs),
        all_consistent(cs),
    ensures
        crate::cube::cubies_wf(step_all(cs, m, 3), 3),
        kinds_match(step_all(cs, m, 3)),
        all_consistent(step_all(cs, m, 3)),
{
    crate::cube::lemma_step_keeps_wf(cs, m, 3);
    lemma_step_keeps_consistent(cs, m, 3);
    assert forall|i: int| 0 <= i < cs.len() implies bounded(#[trigger] cs[i].current_pos, 2) by {
        assert(crate::cube::on_shell(cs[i].current_pos, 3));
    }
    crate::three::moves::lemma_step_keeps_kinds(cs, m);
}

/// Applying the face moves of a path to a cube moves its state view
/// along the path over the solver's move tables.
pub proof fn lemma_view_walk(s: &Solver3x3, cs: Seq<Cubie>, p: Seq<int>)
    requires
        s.wf(),
        crate::cube::cubies_wf(cs, 3),
        kinds_match(cs),
        all_consistent(cs),
        forall|k: int| 0 <= k < p.len() ==> 0 <= #[trigger] p[k] < 18,
    ensures
        cube_view(run_moves(cs, face_moves(p), 3)) == s.walk(cube_view(cs), p),
        crate::cube::cubies_wf(run_moves(cs, face_moves(p), 3), 3),
        kinds_match(run_moves(cs, face_moves(p), 3)),
        all_consistent(run_moves(cs, face_moves(p), 3)),
    decreases p.len(),
{
    if p.len() == 0 {
        assert(face_moves(p) =~= Seq::<Move>::empty());
    } else {
        let q = p.drop_last();
        lemma_view_walk(s, cs, q);
        assert(face_moves(p).drop_last() =~= face_moves(q));
        let i = p.last();
        let m = face_moves(p).last();
        assert(m == crate::three::moves::phase1_face_move(i));
        let before = run_moves(cs, face_moves(q), 3);
        assert(run_moves(cs, face_moves(p), 3) == step_all(before, m, 3));
        lemma_step_keeps_valid(before, m);
        lemma_view_step(before, m, s.move_tables.corner_ops@[i], s.move_tables.edge_ops@[i]);
    }
}

/// A solution the solver may hand back for a cube solves that cube: after
/// its moves every corner and edge is home, untwisted and unflipped.
pub proof fn lemma_solution_solves(s: &Solver3x3, cs: Seq<Cubie>, ms: Seq<Move>)
    requires
        s.wf(),
        crate::cube::cubies_wf(cs, 3),
        kinds_match(cs),
        all_consistent(cs),
        is_solution(s, cube_view(cs), ms),
    ensures
        solved_view(cube_view(run_moves(cs, ms, 3))),
{
    let v = cube_view(cs);
    if !(solved_view(v) && ms.len() == 0) {
        let (p1, p2) = choose|p1: Seq<int>, p2: Seq<int>|
            #![trigger face_moves(p1 + p2)]
            in_g1_view(s.walk(v, p1)) && solved_view(s.walk(v, p1 + p2)) && ms == cancel_spec(face_moves(p1 + p2))
                && forall|k: int| 0 <= k < (p1 + p2).len() ==> 0 <= #[trigger] (p1 + p2)[k] < 18;
        let q = p1 + p2;
        crate::cube::lemma_wf_pieces_ok(cs, 3);
        crate::cube::lemma_run_cancel(cs, face_moves(q), 3);
        lemma_view_walk(s, cs, q);
    } else {
        assert(ms =~= Seq::<Move>::empty());
    }
}

} // verus!
