//! Faces, turns, single-layer moves and move sequences, with move-wise
//! inversion and adjacent-move cancellation.

use vstd::prelude::*;
use vstd::std_specs::iter::IteratorSpec;
use crate::orient::{
    Orient, generators, inverse_idx, rot_of, rot_from, rot_sign, rx_2, rx_ccw, rx_cw, ry_2, ry_ccw,
    ry_cw, rz_2, rz_ccw, rz_cw,
};

verus! {

/// One of the six labelled faces of the cube.
#[derive(Debug, Clone, Copy, PartialEq, Eq, Hash, Structural)]
pub enum Face {
    U,
    D,
    L,
    R,
    F,
    B,
}

/// Axis index of a face normal: 0 = X, 1 = Y, 2 = Z.
pub open spec fn face_axis(f: Face) -> u8 {
    match f {
        Face::R | Face::L => 0,
        Face::U | Face::D => 1,
        Face::F | Face::B => 2,
    }
}

/// Sign of the outward normal of a face along its axis.
pub open spec fn face_axis_sign(f: Face) -> int {
    match f {
        Face::R | Face::U | Face::F => 1,
        Face::L | Face::D | Face::B => -1,
    }
}

pub open spec fn face_opposite(f: Face) -> Face {
    match f {
        Face::U => Face::D,
        Face::D => Face::U,
        Face::L => Face::R,
        Face::R => Face::L,
        Face::F => Face::B,
        Face::B => Face::F,
    }
}

pub open spec fn face_symbol(f: Face) -> char {
    match f {
        Face::U => 'U',
        Face::D => 'D',
        Face::L => 'L',
        Face::R => 'R',
        Face::F => 'F',
        Face::B => 'B',
    }
}

impl Face {
    /// All six faces in `U D L R F B` order.
    pub const ALL: [Face; 6] = [Face::U, Face::D, Face::L, Face::R, Face::F, Face::B];

    /// Axis index this face's normal lies along: 0=X, 1=Y, 2=Z.
    pub fn axis(self) -> (r: u8)
        ensures
            r == face_axis(self),
    {
        match self {
            Face::R | Face::L => 0,
            Face::U | Face::D => 1,
            Face::F | Face::B => 2,
        }
    }

    /// Sign of the outward-facing normal along [`Face::axis`].
    pub fn axis_sign(self) -> (r: i32)
        ensures
            r == face_axis_sign(self),
    {
        match self {
            Face::R | Face::U | Face::F => 1,
            Face::L | Face::D | Face::B => -1,
        }
    }

    pub fn opposite(self) -> (r: Face)
        ensures
            r == face_opposite(self),
    {
        match self {
            Face::U => Face::D,
            Face::D => Face::U,
            Face::L => Face::R,
            Face::R => Face::L,
            Face::F => Face::B,
            Face::B => Face::F,
        }
    }

    pub fn symbol(self) -> (r: char)
        ensures
            r == face_symbol(self),
    {
        match self {
            Face::U => 'U',
            Face::D => 'D',
            Face::L => 'L',
            Face::R => 'R',
            Face::F => 'F',
            Face::B => 'B',
        }
    }
}

/// One quarter, half, or three-quarter turn of a face or slice.
#[derive(Debug, Clone, Copy, PartialEq, Eq, Hash, Structural)]
pub enum Turn {
    /// 90° clockwise as viewed from outside the named face.
    Cw,
    /// 90° counter-clockwise as viewed from outside.
    Ccw,
    /// 180°.
    Half,
}

pub open spec fn turn_inverse(t: Turn) -> Turn {
    match t {
        Turn::Cw => Turn::Ccw,
        Turn::Ccw => Turn::Cw,
        Turn::Half => Turn::Half,
    }
}

/// Quarter-turn steps of a turn: Cw = 1, Half = 2, Ccw = 3.
pub open spec fn turn_steps(t: Turn) -> u8 {
    match t {
        Turn::Cw => 1,
        Turn::Half => 2,
        Turn::Ccw => 3,
    }
}

/// The turn with `s` quarter steps (mod 4); `None` for a multiple of 4.
pub open spec fn turn_from_steps(s: int) -> Option<Turn> {
    if s % 4 == 1 {
        Some(Turn::Cw)
    } else if s % 4 == 2 {
        Some(Turn::Half)
    } else if s % 4 == 3 {
        Some(Turn::Ccw)
    } else {
        None
    }
}

impl Turn {
    pub fn inverse(self) -> (r: Self)
        ensures
            r == turn_inverse(self),
    {
        match self {
            Turn::Cw => Turn::Ccw,
            Turn::Ccw => Turn::Cw,
            Turn::Half => Turn::Half,
        }
    }

    /// Number of quarter-turn steps modulo 4 (Cw=1, Half=2, Ccw=3).
    pub fn steps(self) -> (r: u8)
        ensures
            r == turn_steps(self),
    {
        match self {
            Turn::Cw => 1,
            Turn::Half => 2,
            Turn::Ccw => 3,
        }
    }

    /// Inverse of [`Turn::steps`]. Returns `None` for 0 (no-move).
    pub fn from_steps(s: u8) -> (r: Option<Self>)
        ensures
            r == turn_from_steps(s as int),
    {
        let m = s % 4;
        if m == 1 {
            Some(Turn::Cw)
        } else if m == 2 {
            Some(Turn::Half)
        } else if m == 3 {
            Some(Turn::Ccw)
        } else {
            None
        }
    }
}

/// Turn inversion is an involution, and a turn followed by its inverse
/// adds up to a whole number of revolutions.
pub proof fn lemma_turn_inverse(t: Turn)
    ensures
        turn_inverse(turn_inverse(t)) == t,
        (turn_steps(t) + turn_steps(turn_inverse(t))) % 4 == 0,
        turn_from_steps(turn_steps(t) as int) == Some(t),
{
}

/// A single layer rotation. Cube rotations and slice moves are encoded as
/// wide / single-slice variants of this struct.
#[derive(Debug, Clone, Copy, PartialEq, Eq, Hash, Structural)]
pub struct Move {
    pub face: Face,
    pub turn: Turn,
    /// Layer depth from `face`. 1 = outer layer.
    pub depth: u8,
    /// Wide turn: rotates layers `1..=depth` together; otherwise only the
    /// single layer at `depth`.
    pub wide: bool,
}

pub open spec fn move_inverse(m: Move) -> Move {
    Move { face: m.face, turn: turn_inverse(m.turn), depth: m.depth, wide: m.wide }
}

/// Group index of the rotation a move applies to the layers it turns.
pub open spec fn move_rotation(m: Move) -> int {
    let (cw, ccw, half) = if face_axis(m.face) == 0 {
        (rx_cw(), rx_ccw(), rx_2())
    } else if face_axis(m.face) == 1 {
        (ry_cw(), ry_ccw(), ry_2())
    } else {
        (rz_cw(), rz_ccw(), rz_2())
    };
    let (forward, backward) = if face_axis_sign(m.face) == 1 {
        (ccw, cw)
    } else {
        (cw, ccw)
    };
    match m.turn {
        Turn::Cw => forward,
        Turn::Ccw => backward,
        Turn::Half => half,
    }
}

/// The inverse move turns by the inverse rotation, and every move fixes the
/// coordinate along its own axis.
pub proof fn lemma_move_rotation(m: Move)
    ensures
        0 <= move_rotation(m) < 24,
        move_rotation(move_inverse(m)) == inverse_idx(move_rotation(m)),
        rot_from(rot_of(move_rotation(m)), face_axis(m.face) as int) == face_axis(m.face),
        rot_sign(rot_of(move_rotation(m)), face_axis(m.face) as int) == 1,
{
}

/// Axis coordinate of the layer at `depth` below `face` on a cube of size `n`.
pub open spec fn layer_coord_spec(face: Face, size: int, depth: int) -> int {
    face_axis_sign(face) * (size + 1 - 2 * depth)
}

/// First depth rotated by a move: 1 for wide moves, `depth` otherwise.
pub open spec fn first_layer(m: Move) -> int {
    if m.wide {
        1
    } else {
        m.depth as int
    }
}

/// The axis coordinates of the layers a move rotates, outermost first.
pub open spec fn affected_coords_spec(m: Move, size: int) -> Seq<i32> {
    Seq::new(
        (m.depth - first_layer(m) + 1) as nat,
        |i: int| layer_coord_spec(m.face, size, first_layer(m) + i) as i32,
    )
}

impl Move {
    /// Convenience: single-layer outer turn.
    pub fn face(face: Face, turn: Turn) -> (r: Self)
        ensures
            r == (Move { face, turn, depth: 1, wide: false }),
    {
        Self { face, turn, depth: 1, wide: false }
    }

    pub fn inverse(self) -> (r: Self)
        ensures
            r == move_inverse(self),
    {
        Self { face: self.face, turn: self.turn.inverse(), depth: self.depth, wide: self.wide }
    }

    /// The rotation corresponding to this move's turn, as an [`Orient`].
    ///
    /// WCA "clockwise from outside" on a face whose outward normal points
    /// along `+axis` is the right-hand rotation about `-axis`, so for
    /// positive faces the clockwise turn is the negative generator.
    pub fn rotation(self) -> (r: Orient)
        ensures
            r.0 == move_rotation(self),
            r.0 < 24,
    {
        let g = generators();
        let outward_sign = self.face.axis_sign();
        let axis = self.face.axis();
        let (cw, ccw, half) = if axis == 0 {
            (g.rx_cw, g.rx_ccw, g.rx_2)
        } else if axis == 1 {
            (g.ry_cw, g.ry_ccw, g.ry_2)
        } else {
            (g.rz_cw, g.rz_ccw, g.rz_2)
        };
        let (forward, backward) = if outward_sign == 1 {
            (ccw, cw)
        } else {
            (cw, ccw)
        };
        match self.turn {
            Turn::Cw => forward,
            Turn::Ccw => backward,
            Turn::Half => half,
        }
    }

    /// Coordinate value along [`Face::axis`] that picks out the affected
    /// layer for the given cube `size` and `depth`.
    pub fn layer_coord(face: Face, size: u8, depth: u8) -> (r: i32)
        ensures
            r == layer_coord_spec(face, size as int, depth as int),
    {
        let n = size as i32;
        let d = depth as i32;
        face.axis_sign() * (n + 1 - 2 * d)
    }

    /// The axis coordinates the affected cubies must match, from depth
    /// `first_layer` up to `depth`.
    pub fn affected_layer_coords(self, size: u8) -> (r: Vec<i32>)
        ensures
            r@ == affected_coords_spec(self, size as int),
    {
        let depth = self.depth;
        let start: u8 = if self.wide { 1 } else { depth };
        let mut out: Vec<i32> = Vec::new();
        let mut d: u16 = start as u16;
        while d <= depth as u16
            invariant
                start == first_layer(self),
                depth == self.depth,
                start <= d <= depth as int + 1,
                out@ =~= affected_coords_spec(self, size as int).take(d - start),
            decreases depth + 1 - d,
        {
            out.push(Move::layer_coord(self.face, size, d as u8));
            d = d + 1;
        }
        proof {
            assert(out@ =~= affected_coords_spec(self, size as int));
        }
        out
    }

    /// Whether this move is equivalent to a whole-cube rotation on size `N`.
    pub fn is_whole_cube_rotation(self, size: u8) -> (r: bool)
        ensures
            r == (self.wide && self.depth == size),
    {
        self.wide && self.depth == size
    }
}

/// A whole-cube rotation around one of three axes.
#[derive(Debug, Clone, Copy, PartialEq, Eq, Hash, Structural)]
pub enum CubeRotation {
    X(Turn),
    Y(Turn),
    Z(Turn),
}

pub open spec fn rotation_as_move(r: CubeRotation, size: u8) -> Move {
    match r {
        CubeRotation::X(t) => Move { face: Face::R, turn: t, depth: size, wide: true },
        CubeRotation::Y(t) => Move { face: Face::U, turn: t, depth: size, wide: true },
        CubeRotation::Z(t) => Move { face: Face::F, turn: t, depth: size, wide: true },
    }
}

impl CubeRotation {
    /// Lower this cube rotation into its [`Move`] equivalent for `size`:
    /// `x` follows R, `y` follows U, `z` follows F.
    pub fn as_move(self, size: u8) -> (r: Move)
        ensures
            r == rotation_as_move(self, size),
    {
        let (face, turn) = match self {
            CubeRotation::X(t) => (Face::R, t),
            CubeRotation::Y(t) => (Face::U, t),
            CubeRotation::Z(t) => (Face::F, t),
        };
        Move { face, turn, depth: size, wide: true }
    }
}

/// Sequence of moves.
#[derive(Debug, Clone, Default, PartialEq, Eq)]
pub struct MoveSeq(pub Vec<Move>);

/// Move-wise inverse: reversed order, each turn inverted.
pub open spec fn seq_inverse(s: Seq<Move>) -> Seq<Move> {
    Seq::new(s.len(), |i: int| move_inverse(s[s.len() - 1 - i]))
}

/// Two moves rotate the same layer set.
pub open spec fn same_layer(a: Move, b: Move) -> bool {
    a.face == b.face && a.depth == b.depth && a.wide == b.wide
}

/// Push `m` onto a cancellation stack, merging it with the top when both
/// rotate the same layers (and dropping the pair if they cancel).
pub open spec fn push_reduce(stack: Seq<Move>, m: Move) -> Seq<Move> {
    if stack.len() > 0 && same_layer(stack.last(), m) {
        let c = turn_steps(stack.last().turn) + turn_steps(m.turn);
        match turn_from_steps(c) {
            Some(t) => stack.drop_last().push(
                Move { face: m.face, turn: t, depth: m.depth, wide: m.wide },
            ),
            None => stack.drop_last(),
        }
    } else {
        stack.push(m)
    }
}

/// Result of cancelling adjacent same-layer moves left to right.
pub open spec fn cancel_spec(s: Seq<Move>) -> Seq<Move>
    decreases s.len(),
{
    if s.len() == 0 {
        Seq::empty()
    } else {
        push_reduce(cancel_spec(s.drop_last()), s.last())
    }
}

/// Continue cancelling `s` on top of an existing stack.
pub open spec fn reduce_onto(stack: Seq<Move>, s: Seq<Move>) -> Seq<Move>
    decreases s.len(),
{
    if s.len() == 0 {
        stack
    } else {
        push_reduce(reduce_onto(stack, s.drop_last()), s.last())
    }
}

/// No two neighbouring moves rotate the same layers.
pub open spec fn is_reduced(s: Seq<Move>) -> bool {
    forall|i: int| 0 <= i < s.len() - 1 ==> !same_layer(#[trigger] s[i], s[i + 1])
}

impl MoveSeq {
    pub fn new() -> (r: Self)
        ensures
            r.0@ == Seq::<Move>::empty(),
    {
        Self(Vec::new())
    }

    pub fn from_vec(v: Vec<Move>) -> (r: Self)
        ensures
            r.0@ == v@,
    {
        Self(v)
    }

    pub fn len(&self) -> (r: usize)
        ensures
            r == self.0@.len(),
    {
        self.0.len()
    }

    pub fn is_empty(&self) -> (r: bool)
        ensures
            r == (self.0@.len() == 0),
    {
        self.0.len() == 0
    }

    pub fn push(&mut self, m: Move)
        ensures
            final(self).0@ == old(self).0@.push(m),
    {
        self.0.push(m);
    }

    /// Append every move of `moves` in order.
    pub fn extend(&mut self, moves: &[Move])
        ensures
            final(self).0@ == old(self).0@ + moves@,
    {
        let mut i: usize = 0;
        while i < moves.len()
            invariant
                i <= moves@.len(),
                self.0@ == old(self).0@ + moves@.take(i as int),
            decreases moves@.len() - i,
        {
            self.0.push(moves[i]);
            i = i + 1;
            proof {
                assert(moves@.take(i as int) =~= moves@.take(i - 1).push(moves@[i - 1]));
            }
        }
        proof {
            assert(moves@.take(i as int) =~= moves@);
        }
    }

    /// The moves as a slice, in order.
    pub fn as_slice(&self) -> (r: &[Move])
        ensures
            r@ == self.0@,
    {
        self.0.as_slice()
    }

    /// An iterator over the moves, in order.
    pub fn iter(&self) -> (r: std::slice::Iter<'_, Move>)
        ensures
            IteratorSpec::remaining(&r) == self.0@.as_ref(),
    {
        let s = self.0.as_slice();
        let it = s.iter();
        proof {
            vstd::std_specs::slice::axiom_spec_slice_iter(s);
        }
        it
    }

    /// Move-wise inverse: reversed order, each turn negated.
    pub fn inverse(&self) -> (r: Self)
        ensures
            r.0@ == seq_inverse(self.0@),
    {
        let n = self.0.len();
        let mut out: Vec<Move> = Vec::with_capacity(n);
        let mut i: usize = 0;
        while i < n
            invariant
                n == self.0@.len(),
                i <= n,
                out@ =~= seq_inverse(self.0@).take(i as int),
            decreases n - i,
        {
            out.push(self.0[n - 1 - i].inverse());
            i = i + 1;
        }
        proof {
            assert(out@ =~= seq_inverse(self.0@));
        }
        Self(out)
    }

    /// Cancel adjacent moves on the same face/depth/wide:
    /// `R R'` → ε, `R R` → `R2`, `R2 R` → `R'`, etc.
    /// Does not commute across non-equivalent layers.
    pub fn cancel(&self) -> (r: Self)
        ensures
            r.0@ == cancel_spec(self.0@),
            r.0@.len() <= self.0@.len(),
    {
        proof {
            lemma_cancel_not_longer(self.0@);
        }
        let n = self.0.len();
        let mut out: Vec<Move> = Vec::with_capacity(n);
        let mut i: usize = 0;
        while i < n
            invariant
                n == self.0@.len(),
                i <= n,
                out@ == cancel_spec(self.0@.take(i as int)),
            decreases n - i,
        {
            let m = self.0[i];
            proof {
                assert(self.0@.take(i + 1).drop_last() =~= self.0@.take(i as int));
            }
            let olen = out.len();
            if olen > 0 {
                let prev = out[olen - 1];
                if prev.face == m.face && prev.depth == m.depth && prev.wide == m.wide {
                    let combined = (prev.turn.steps() + m.turn.steps()) % 4;
                    out.pop();
                    match Turn::from_steps(combined) {
                        Some(t) => {
                            out.push(Move { face: m.face, turn: t, depth: m.depth, wide: m.wide });
                        },
                        None => {},
                    }
                    i = i + 1;
                    continue;
                }
            }
            out.push(m);
            i = i + 1;
        }
        proof {
            assert(self.0@.take(n as int) =~= self.0@);
        }
        Self(out)
    }
}

// ---------------------------------------------------------------------
// Laws of inversion and cancellation.
// ---------------------------------------------------------------------

/// Inverting a move twice gives it back.
pub proof fn lemma_move_inverse_involution(m: Move)
    ensures
        move_inverse(move_inverse(m)) == m,
{
}

/// Inverting a move sequence twice gives it back, and keeps its length.
pub proof fn lemma_seq_inverse_involution(s: Seq<Move>)
    ensures
        seq_inverse(seq_inverse(s)) == s,
        seq_inverse(s).len() == s.len(),
{
    assert(seq_inverse(seq_inverse(s)) =~= s);
}

proof fn lemma_push_reduce_keeps_reduced(stack: Seq<Move>, m: Move)
    requires
        is_reduced(stack),
    ensures
        is_reduced(push_reduce(stack, m)),
{
    let r = push_reduce(stack, m);
    if stack.len() > 0 && same_layer(stack.last(), m) {
        assert forall|i: int| 0 <= i < r.len() - 1 implies !same_layer(#[trigger] r[i], r[i + 1]) by {
            assert(r[i] == stack[i]);
            if i + 1 < stack.len() - 1 {
                assert(r[i + 1] == stack[i + 1]);
            }
        }
    } else {
        assert forall|i: int| 0 <= i < r.len() - 1 implies !same_layer(#[trigger] r[i], r[i + 1]) by {
            assert(r[i] == stack[i]);
        }
    }
}

/// Cancelling never makes a sequence longer.
pub proof fn lemma_cancel_not_longer(s: Seq<Move>)
    ensures
        cancel_spec(s).len() <= s.len(),
    decreases s.len(),
{
    if s.len() > 0 {
        lemma_cancel_not_longer(s.drop_last());
    }
}

/// The result of cancellation never has two neighbouring moves on the same
/// layers.
pub proof fn lemma_cancel_is_reduced(s: Seq<Move>)
    ensures
        is_reduced(cancel_spec(s)),
    decreases s.len(),
{
    if s.len() > 0 {
        lemma_cancel_is_reduced(s.drop_last());
        lemma_push_reduce_keeps_reduced(cancel_spec(s.drop_last()), s.last());
    }
}

/// Pushing a move and then its inverse onto a reduced stack leaves it as
/// it was.
proof fn lemma_push_then_inverse(stack: Seq<Move>, m: Move)
    requires
        is_reduced(stack),
    ensures
        push_reduce(push_reduce(stack, m), move_inverse(m)) == stack,
{
    let mi = move_inverse(m);
    let s1 = push_reduce(stack, m);
    if stack.len() > 0 && same_layer(stack.last(), m) {
        let top = stack.last();
        let c = turn_steps(top.turn) + turn_steps(m.turn);
        match turn_from_steps(c) {
            Some(t) => {
                assert(s1.last() == Move { face: m.face, turn: t, depth: m.depth, wide: m.wide });
                assert(s1.drop_last() =~= stack.drop_last());
                assert(push_reduce(s1, mi) =~= stack);
            },
            None => {
                assert(s1 =~= stack.drop_last());
                if s1.len() > 0 {
                    assert(stack[stack.len() - 2] == s1.last());
                    assert(!same_layer(stack[stack.len() - 2], stack[stack.len() - 1]));
                }
                assert(mi == top);
                assert(push_reduce(s1, mi) =~= stack);
            },
        }
    } else {
        assert(s1.last() == m);
        assert(s1.drop_last() =~= stack);
        assert(push_reduce(s1, mi) =~= stack);
    }
}

proof fn lemma_cancel_concat(a: Seq<Move>, b: Seq<Move>)
    ensures
        cancel_spec(a + b) == reduce_onto(cancel_spec(a), b),
    decreases b.len(),
{
    if b.len() == 0 {
        assert(a + b =~= a);
    } else {
        lemma_cancel_concat(a, b.drop_last());
        assert((a + b).drop_last() =~= a + b.drop_last());
        assert((a + b).last() == b.last());
    }
}

proof fn lemma_reduce_onto_front(stack: Seq<Move>, x: Move, t: Seq<Move>)
    ensures
        reduce_onto(stack, seq![x] + t) == reduce_onto(push_reduce(stack, x), t),
    decreases t.len(),
{
    let s = seq![x] + t;
    if t.len() == 0 {
        assert(s.drop_last() =~= Seq::<Move>::empty());
        assert(s.last() == x);
        assert(reduce_onto(stack, s.drop_last()) == stack);
        assert(reduce_onto(stack, s) == push_reduce(stack, x));
        assert(reduce_onto(push_reduce(stack, x), t) == push_reduce(stack, x));
    } else {
        lemma_reduce_onto_front(stack, x, t.drop_last());
        assert(s.drop_last() =~= seq![x] + t.drop_last());
        assert(s.last() == t.last());
        assert(reduce_onto(stack, s) == push_reduce(reduce_onto(stack, s.drop_last()), s.last()));
    }
}

proof fn lemma_reduce_inverse_to_empty(s: Seq<Move>)
    ensures
        reduce_onto(cancel_spec(s), seq_inverse(s)) == Seq::<Move>::empty(),
    decreases s.len(),
{
    if s.len() == 0 {
        assert(seq_inverse(s) =~= Seq::<Move>::empty());
    } else {
        let sp = s.drop_last();
        let m = s.last();
        assert(seq_inverse(s) =~= seq![move_inverse(m)] + seq_inverse(sp));
        lemma_reduce_onto_front(cancel_spec(s), move_inverse(m), seq_inverse(sp));
        lemma_cancel_is_reduced(sp);
        lemma_push_then_inverse(cancel_spec(sp), m);
        lemma_reduce_inverse_to_empty(sp);
    }
}

/// A sequence followed by its inverse cancels to the empty sequence.
pub proof fn lemma_cancel_seq_then_inverse(s: Seq<Move>)
    ensures
        cancel_spec(s + seq_inverse(s)) == Seq::<Move>::empty(),
{
    lemma_cancel_concat(s, seq_inverse(s));
    lemma_reduce_inverse_to_empty(s);
}

/// Cancelling an already-cancelled sequence changes nothing.
pub proof fn lemma_cancel_idempotent(s: Seq<Move>)
    ensures
        cancel_spec(cancel_spec(s)) == cancel_spec(s),
{
    lemma_cancel_is_reduced(s);
    lemma_cancel_of_reduced(cancel_spec(s));
}

proof fn lemma_cancel_of_reduced(s: Seq<Move>)
    requires
        is_reduced(s),
    ensures
        cancel_spec(s) == s,
    decreases s.len(),
{
    if s.len() > 0 {
        let sp = s.drop_last();
        assert(is_reduced(sp)) by {
            assert forall|i: int| 0 <= i < sp.len() - 1 implies !same_layer(#[trigger] sp[i], sp[i + 1]) by {
                assert(sp[i] == s[i] && sp[i + 1] == s[i + 1]);
            }
        }
        lemma_cancel_of_reduced(sp);
        if sp.len() > 0 {
            assert(!same_layer(s[s.len() - 2], s[s.len() - 1]));
        }
        assert(sp.push(s.last()) =~= s);
    }
}

} // verus!
