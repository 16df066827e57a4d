//! The decisions the trainer takes on user input and on each frame: undo
//! and redo of committed moves, the turn a face key asks for, and the
//! recording of a finished timed solve.

use vstd::prelude::*;
use crate::moves::{Move, MoveSeq, Turn, move_inverse};
use crate::render::{CubeState, MoveOrigin, NextCommitOrigin, PendingMoves};
use crate::trainer::drill::{DrillCase, PerCaseStats, times_of};
use crate::trainer::stats::{SessionStats, SolveFlag, TimedSolve};
use crate::trainer::timer::{TimerPhase, TimerState};

verus! {

/// The turn a face key asks for: half with Alt held, counter-clockwise
/// with Shift, clockwise otherwise.
pub fn turn_for_modifiers(shift: bool, alt: bool) -> (r: Turn)
    ensures
        r == (if alt {
            Turn::Half
        } else if shift {
            Turn::Ccw
        } else {
            Turn::Cw
        }),
{
    if alt {
        Turn::Half
    } else if shift {
        Turn::Ccw
    } else {
        Turn::Cw
    }
}

/// Undo the last committed move: it moves from the history to the redo
/// stack and its inverse is queued with origin `Undo`. Nothing happens
/// while a move is queued or animating, or when the history is empty;
/// the result says whether a move was queued.
pub fn undo_move(state: &mut CubeState, pending: &mut PendingMoves, origin: &mut NextCommitOrigin, animating: bool) -> (r:
    bool)
    ensures
        final(state).cube == old(state).cube,
        r == (!animating && old(pending).0@.len() == 0 && old(state).history@.len() > 0),
        r ==> {
            let m = old(state).history@.last();
            &&& final(state).history@ == old(state).history@.drop_last()
            &&& final(state).redo_stack@ == old(state).redo_stack@.push(m)
            &&& final(pending).0@ == old(pending).0@.push(move_inverse(m))
            &&& final(origin).0 == MoveOrigin::Undo
        },
        !r ==> final(state).history@ == old(state).history@ && final(state).redo_stack@ == old(state).redo_stack@
            && final(pending).0@ == old(pending).0@ && final(origin).0 == old(origin).0,
{
    if animating || !pending.is_empty() {
        return false;
    }
    match state.history.pop() {
        Some(m) => {
            state.redo_stack.push(m);
            origin.0 = MoveOrigin::Undo;
            pending.enqueue(m.inverse());
            true
        },
        None => false,
    }
}

/// Redo the last undone move: it moves from the redo stack back to the
/// history and is queued with origin `Redo`. Nothing happens while a move
/// is queued or animating, or when the redo stack is empty.
pub fn redo_move(state: &mut CubeState, pending: &mut PendingMoves, origin: &mut NextCommitOrigin, animating: bool) -> (r:
    bool)
    ensures
        final(state).cube == old(state).cube,
        r == (!animating && old(pending).0@.len() == 0 && old(state).redo_stack@.len() > 0),
        r ==> {
            let m = old(state).redo_stack@.last();
            &&& final(state).redo_stack@ == old(state).redo_stack@.drop_last()
            &&& final(state).history@ == old(state).history@.push(m)
            &&& final(pending).0@ == old(pending).0@.push(m)
            &&& final(origin).0 == MoveOrigin::Redo
        },
        !r ==> final(state).history@ == old(state).history@ && final(state).redo_stack@ == old(state).redo_stack@
            && final(pending).0@ == old(pending).0@ && final(origin).0 == old(origin).0,
{
    if animating || !pending.is_empty() {
        return false;
    }
    match state.redo_stack.pop() {
        Some(m) => {
            state.history.push(m);
            origin.0 = MoveOrigin::Redo;
            pending.enqueue(m);
            true
        },
        None => false,
    }
}

/// Whole milliseconds in `ns` nanoseconds, capped at `u32::MAX`.
pub open spec fn ms_of(ns: u64) -> u32 {
    if ns / 1_000_000 > u32::MAX {
        u32::MAX
    } else {
        (ns / 1_000_000) as u32
    }
}

/// A timed solve ends when the cube is solved while the timer runs and no
/// move is animating: the time, in whole milliseconds, is recorded
/// against the timer's scramble, and against the drilled case when there
/// is one (which is then cleared), and the timer finishes. Returns the
/// recorded time, or `None` when the solve goes on.
pub fn complete_solve(
    timer: &mut TimerState,
    stats: &mut SessionStats,
    per_case: &mut PerCaseStats,
    current: &mut Option<DrillCase>,
    solved: bool,
    animating: bool,
) -> (r: Option<u32>)
    requires
        old(per_case).wf(),
    ensures
        final(per_case).wf(),
        r is Some <==> (old(timer).phase == TimerPhase::Solving && !animating && solved),
        r is None ==> *final(timer) == *old(timer) && final(stats).solves@ == old(stats).solves@
            && final(per_case).by_case@ == old(per_case).by_case@ && *final(current) == *old(current),
        r matches Some(ms) ==> {
            &&& ms == ms_of(old(timer).elapsed_ns)
            &&& final(stats).solves@.len() == old(stats).solves@.len() + 1
            &&& final(stats).solves@.drop_last() == old(stats).solves@
            &&& final(stats).solves@.last().scramble.0@ == old(timer).active_scramble.0@
            &&& final(stats).solves@.last().solution.0@.len() == 0
            &&& final(stats).solves@.last().time_ms == ms
            &&& final(stats).solves@.last().flag == SolveFlag::NoPenalty
            &&& final(timer).phase == TimerPhase::Finished
            &&& final(timer).elapsed_ns == old(timer).elapsed_ns
            &&& final(timer).inspection_remaining_ns == old(timer).inspection_remaining_ns
            &&& final(timer).active_scramble == old(timer).active_scramble
            &&& *final(current) is None
            &&& match *old(current) {
                Some(case) => {
                    &&& times_of(final(per_case).by_case@, case.id@) == Some(
                        match times_of(old(per_case).by_case@, case.id@) {
                            Some(t) => t,
                            None => Seq::<u32>::empty(),
                        }.push(ms),
                    )
                    &&& forall|k: Seq<char>|
                        k != case.id@ ==> times_of(final(per_case).by_case@, k) == times_of(
                            old(per_case).by_case@,
                            k,
                        )
                },
                None => final(per_case).by_case@ == old(per_case).by_case@,
            }
        },
{
    if timer.phase != TimerPhase::Solving || animating || !solved {
        return None;
    }
    let whole_ms = timer.elapsed_ns / 1_000_000;
    let ms: u32 = if whole_ms > u32::MAX as u64 {
        u32::MAX
    } else {
        whole_ms as u32
    };
    let scramble = MoveSeq(timer.active_scramble.0.clone());
    stats.record(TimedSolve { scramble, solution: MoveSeq::new(), time_ms: ms, flag: SolveFlag::NoPenalty });
    match current.take() {
        Some(case) => {
            per_case.record(&case.id, ms);
        },
        None => {},
    }
    timer.finish();
    Some(ms)
}

} // verus!
