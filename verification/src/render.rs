//! Logical side of the cube view: the live cube with its undo and redo
//! stacks, the queue of moves waiting to animate, and the commit of a
//! finished move animation.

use vstd::prelude::*;
use crate::cube::{Cube, pieces_ok, step_all, valid_move};
use crate::moves::Move;

verus! {

/// History depth cap: a scramble and a typical solve stay far below it.
pub const MAX_HISTORY: usize = 1024;

/// The live cube. `history` holds committed moves in commit order, at
/// most [`MAX_HISTORY`] of them; `redo_stack` holds undone moves, most
/// recently undone last.
#[derive(Debug, Clone)]
pub struct CubeState {
    pub cube: Cube,
    pub history: Vec<Move>,
    pub redo_stack: Vec<Move>,
}

impl CubeState {
    pub fn new(cube: Cube) -> (r: Self)
        ensures
            r.cube == cube,
            r.history@.len() == 0,
            r.redo_stack@.len() == 0,
    {
        Self { cube, history: Vec::new(), redo_stack: Vec::new() }
    }

    /// A solved cube of the given size with empty stacks.
    pub fn solved(size: u8) -> (r: Self)
        requires
            2 <= size <= 5,
        ensures
            r.cube.size == size,
            r.cube.wf(),
            r.history@.len() == 0,
            r.redo_stack@.len() == 0,
    {
        match Cube::solved(size) {
            Ok(c) => Self::new(c),
            Err(_) => {
                proof {
                    assert(false);
                }
                Self::new(Cube { size, cubies: Vec::new() })
            },
        }
    }

    /// Drop both stacks; the cube is kept.
    pub fn reset_history(&mut self)
        ensures
            final(self).cube == old(self).cube,
            final(self).history@.len() == 0,
            final(self).redo_stack@.len() == 0,
    {
        self.history.clear();
        self.redo_stack.clear();
    }
}

/// Where the next committed move comes from. A user move is recorded in
/// the history and clears the redo stack; undo and redo moves have had
/// their bookkeeping done when they were queued.
#[derive(Debug, Clone, Copy, PartialEq, Eq, Structural)]
pub enum MoveOrigin {
    User,
    Undo,
    Redo,
}

impl Default for MoveOrigin {
    fn default() -> (r: Self)
        ensures
            r == MoveOrigin::User,
    {
        MoveOrigin::User
    }
}

/// Origin of the next move to be committed.
#[derive(Debug, Clone, Copy)]
pub struct NextCommitOrigin(pub MoveOrigin);

/// Moves waiting to animate, front first.
#[derive(Debug, Clone)]
pub struct PendingMoves(pub Vec<Move>);

impl PendingMoves {
    pub fn new() -> (r: Self)
        ensures
            r.0@.len() == 0,
    {
        PendingMoves(Vec::new())
    }

    pub fn enqueue(&mut self, m: Move)
        ensures
            final(self).0@ == old(self).0@.push(m),
    {
        self.0.push(m);
    }

    pub fn enqueue_all(&mut self, moves: &[Move])
        ensures
            final(self).0@ == old(self).0@ + moves@,
    {
        let mut i: usize = 0;
        while i < moves.len()
            invariant
                i <= moves@.len(),
                self.0@ == old(self).0@ + moves@.take(i as int),
            decreases moves@.len() - i,
        {
            self.0.push(moves[i]);
            proof {
                assert(moves@.take(i + 1) =~= moves@.take(i as int).push(moves@[i as int]));
            }
            i = i + 1;
        }
        proof {
            assert(moves@.take(i as int) =~= moves@);
        }
    }

    pub fn is_empty(&self) -> (r: bool)
        ensures
            r == (self.0@.len() == 0),
    {
        self.0.len() == 0
    }

    /// Take the move at the front, if any.
    pub fn pop_front(&mut self) -> (r: Option<Move>)
        ensures
            old(self).0@.len() == 0 ==> r is None && final(self).0@ == old(self).0@,
            old(self).0@.len() > 0 ==> r == Some(old(self).0@[0]) && final(self).0@ == old(self).0@.drop_first(),
    {
        if self.0.len() == 0 {
            None
        } else {
            let m = self.0.remove(0);
            proof {
                assert(old(self).0@.remove(0) =~= old(self).0@.drop_first());
            }
            Some(m)
        }
    }

    pub fn clear(&mut self)
        ensures
            final(self).0@.len() == 0,
    {
        self.0.clear();
    }
}

/// History after recording a user move: appended, then the oldest entry
/// dropped when the cap is exceeded.
pub open spec fn recorded(history: Seq<Move>, m: Move) -> Seq<Move> {
    let h = history.push(m);
    if h.len() > MAX_HISTORY {
        h.drop_first()
    } else {
        h
    }
}

/// Commit a finished move animation: apply the move to the cube (a move
/// whose depth does not fit leaves it unchanged), record a user move in
/// the history and clear the redo stack, and reset the origin to `User`.
pub fn commit_move(state: &mut CubeState, origin: &mut NextCommitOrigin, m: Move)
    requires
        pieces_ok(old(state).cube.cubies@),
    ensures
        final(state).cube.size == old(state).cube.size,
        final(state).cube.cubies@ == (if valid_move(m, old(state).cube.size as int) {
            step_all(old(state).cube.cubies@, m, old(state).cube.size as int)
        } else {
            old(state).cube.cubies@
        }),
        old(origin).0 == MoveOrigin::User ==> final(state).history@ == recorded(old(state).history@, m)
            && final(state).redo_stack@.len() == 0,
        old(origin).0 != MoveOrigin::User ==> final(state).history@ == old(state).history@
            && final(state).redo_stack@ == old(state).redo_stack@,
        final(origin).0 == MoveOrigin::User,
{
    let _ = state.cube.apply(m);
    match origin.0 {
        MoveOrigin::User => {
            state.history.push(m);
            if state.history.len() > MAX_HISTORY {
                state.history.remove(0);
                proof {
                    assert(old(state).history@.push(m).remove(0) =~= old(state).history@.push(m).drop_first());
                }
            }
            state.redo_stack.clear();
        },
        MoveOrigin::Undo | MoveOrigin::Redo => {},
    }
    origin.0 = MoveOrigin::User;
}

/// Number of visible cubies on a size-`n` cube: all `n³` minus the hidden
/// `(n - 2)³` interior.
pub open spec fn visible_count(n: int) -> int {
    n * n * n - if n >= 2 {
        (n - 2) * (n - 2) * (n - 2)
    } else {
        0
    }
}

pub fn expected_cubie_count(size: u8) -> (r: usize)
    ensures
        r == visible_count(size as int),
{
    let n = size as u64;
    proof {
        assert(n * n <= 255 * 255) by (nonlinear_arith)
            requires
                n <= 255,
        ;
        assert(n * n * n <= 255 * 255 * 255) by (nonlinear_arith)
            requires
                n <= 255,
        ;
    }
    let nn = n * n;
    let total = nn * n;
    let interior = if n >= 2 {
        let m = n - 2;
        proof {
            assert(m * m <= n * n) by (nonlinear_arith)
                requires
                    m <= n,
            ;
            assert(m * m * m <= n * n * n) by (nonlinear_arith)
                requires
                    m <= n,
            ;
        }
        let mm = m * m;
        mm * m
    } else {
        0
    };
    (total - interior) as usize
}

} // verus!
