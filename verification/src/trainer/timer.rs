//! The solve timer: `Idle → Inspecting → Solving → Finished → Idle`,
//! with a 15-second WCA inspection countdown. Time is kept in whole
//! nanoseconds.

use vstd::prelude::*;
use rand_chacha::ChaCha8Rng;
use crate::moves::{Move, MoveSeq};
use crate::render::{CubeState, PendingMoves};
use crate::scramble::{default_length_spec, valid_scramble, wca_scramble};

verus! {

/// Standard WCA inspection time, in seconds.
pub const WCA_INSPECTION_SECS: u64 = 15;

/// WCA inspection time in nanoseconds.
pub const WCA_INSPECTION_NS: u64 = 15_000_000_000;

#[derive(Debug, Clone, Copy, PartialEq, Eq, Hash, Structural)]
pub enum TimerPhase {
    /// Waiting for the user to start.
    Idle,
    /// The inspection countdown is running.
    Inspecting,
    /// The timer counts up while the user solves.
    Solving,
    /// The solve is finished.
    Finished,
}

#[derive(Debug, Clone)]
pub struct TimerState {
    pub phase: TimerPhase,
    /// Nanoseconds elapsed in the current phase.
    pub elapsed_ns: u64,
    /// Nanoseconds of inspection left; meaningful while inspecting.
    pub inspection_remaining_ns: u64,
    /// The scramble this timer's solve is against.
    pub active_scramble: MoveSeq,
}

impl Default for TimerState {
    fn default() -> (r: Self)
        ensures
            r.phase == TimerPhase::Idle,
            r.elapsed_ns == 0,
            r.inspection_remaining_ns == WCA_INSPECTION_NS,
            r.active_scramble.0@.len() == 0,
    {
        Self {
            phase: TimerPhase::Idle,
            elapsed_ns: 0,
            inspection_remaining_ns: WCA_INSPECTION_NS,
            active_scramble: MoveSeq::new(),
        }
    }
}

impl TimerState {
    pub fn begin_inspection(&mut self, scramble: MoveSeq)
        ensures
            final(self).phase == TimerPhase::Inspecting,
            final(self).elapsed_ns == 0,
            final(self).inspection_remaining_ns == WCA_INSPECTION_NS,
            final(self).active_scramble == scramble,
    {
        self.phase = TimerPhase::Inspecting;
        self.elapsed_ns = 0;
        self.inspection_remaining_ns = WCA_INSPECTION_NS;
        self.active_scramble = scramble;
    }

    pub fn begin_solving(&mut self)
        ensures
            final(self).phase == TimerPhase::Solving,
            final(self).elapsed_ns == 0,
            final(self).inspection_remaining_ns == old(self).inspection_remaining_ns,
            final(self).active_scramble == old(self).active_scramble,
    {
        self.phase = TimerPhase::Solving;
        self.elapsed_ns = 0;
    }

    pub fn finish(&mut self)
        ensures
            final(self).phase == TimerPhase::Finished,
            final(self).elapsed_ns == old(self).elapsed_ns,
            final(self).inspection_remaining_ns == old(self).inspection_remaining_ns,
            final(self).active_scramble == old(self).active_scramble,
    {
        self.phase = TimerPhase::Finished;
    }

    pub fn reset(&mut self)
        ensures
            final(self).phase == TimerPhase::Idle,
            final(self).elapsed_ns == 0,
            final(self).inspection_remaining_ns == WCA_INSPECTION_NS,
            final(self).active_scramble.0@.len() == 0,
    {
        self.phase = TimerPhase::Idle;
        self.elapsed_ns = 0;
        self.inspection_remaining_ns = WCA_INSPECTION_NS;
        self.active_scramble = MoveSeq::new();
    }

    /// Advance by `dt_ns` nanoseconds: inspection counts down (to zero at
    /// most) and elapsed time grows while inspecting or solving; idle and
    /// finished timers do not move. The phase never changes here.
    pub fn tick(&mut self, dt_ns: u64)
        requires
            old(self).phase == TimerPhase::Inspecting || old(self).phase == TimerPhase::Solving ==> old(
                self,
            ).elapsed_ns + dt_ns <= u64::MAX,
        ensures
            final(self).phase == old(self).phase,
            final(self).active_scramble == old(self).active_scramble,
            final(self).elapsed_ns == (if old(self).phase == TimerPhase::Inspecting || old(self).phase
                == TimerPhase::Solving {
                old(self).elapsed_ns + dt_ns
            } else {
                old(self).elapsed_ns as int
            }),
            final(self).inspection_remaining_ns == (if old(self).phase == TimerPhase::Inspecting {
                if old(self).inspection_remaining_ns >= dt_ns {
                    old(self).inspection_remaining_ns - dt_ns
                } else {
                    0
                }
            } else {
                old(self).inspection_remaining_ns as int
            }),
    {
        match self.phase {
            TimerPhase::Inspecting => {
                self.inspection_remaining_ns = self.inspection_remaining_ns.saturating_sub(dt_ns);
                self.elapsed_ns = self.elapsed_ns + dt_ns;
            },
            TimerPhase::Solving => {
                self.elapsed_ns = self.elapsed_ns + dt_ns;
            },
            TimerPhase::Idle | TimerPhase::Finished => {},
        }
    }
}


/// Start a timed solve: reset the cube to solved, queue a fresh WCA
/// scramble for it, and start inspection against that scramble. Returns
/// the scramble.
pub fn start_solve(cube_state: &mut CubeState, pending: &mut PendingMoves, timer: &mut TimerState, rng: &mut ChaCha8Rng) -> (r:
    MoveSeq)
    requires
        2 <= old(cube_state).cube.size <= 5,
    ensures
        r.0@.len() == default_length_spec(old(cube_state).cube.size),
        valid_scramble(r.0@, old(cube_state).cube.size),
        final(cube_state).cube.size == old(cube_state).cube.size,
        final(cube_state).cube.wf(),
        final(cube_state).cube.cubies@ == crate::cube::visible_spec(old(cube_state).cube.size as int).map_values(
            |p: crate::vec3::IVec3| crate::cube::solved_cubie(p),
        ),
        final(cube_state).history@ == old(cube_state).history@,
        final(cube_state).redo_stack@ == old(cube_state).redo_stack@,
        final(pending).0@ == r.0@,
        final(timer).phase == TimerPhase::Inspecting,
        final(timer).elapsed_ns == 0,
        final(timer).inspection_remaining_ns == WCA_INSPECTION_NS,
        final(timer).active_scramble.0@ == r.0@,
{
    let size = cube_state.cube.size;
    match crate::cube::Cube::solved(size) {
        Ok(c) => {
            cube_state.cube = c;
        },
        Err(_) => {
            proof {
                assert(false);
            }
        },
    }
    let scramble = wca_scramble(size, rng);
    pending.clear();
    pending.enqueue_all(scramble.as_slice());
    proof {
        assert(Seq::<Move>::empty() + scramble.0@ =~= scramble.0@);
    }
    let mut copy = MoveSeq::new();
    copy.extend(scramble.as_slice());
    proof {
        assert(Seq::<Move>::empty() + scramble.0@ =~= scramble.0@);
    }
    timer.begin_inspection(copy);
    scramble
}

} // verus!
