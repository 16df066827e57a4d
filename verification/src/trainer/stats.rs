//! Solve records and session statistics: best and worst singles, and the
//! WCA average of the last `n` solves (fastest and slowest dropped).

use vstd::prelude::*;
use crate::moves::MoveSeq;

verus! {

/// Outcome flag recorded for a solve.
#[derive(Debug, Clone, Copy, PartialEq, Eq, Structural)]
pub enum SolveFlag {
    NoPenalty,
    Plus2,
    Dnf,
}

/// One completed solve.
#[derive(Debug, Clone)]
pub struct TimedSolve {
    pub scramble: MoveSeq,
    /// Recorded solver moves; empty if not tracked.
    pub solution: MoveSeq,
    /// Time in milliseconds. For a DNF the partial time is kept for
    /// display.
    pub time_ms: u32,
    pub flag: SolveFlag,
}

/// Effective time of a solve: `+2` adds two seconds (saturating), and a
/// DNF counts as `u32::MAX` so that it sorts last.
pub open spec fn effective(s: TimedSolve) -> int {
    match s.flag {
        SolveFlag::NoPenalty => s.time_ms as int,
        SolveFlag::Plus2 => if s.time_ms + 2000 > u32::MAX {
            u32::MAX as int
        } else {
            s.time_ms + 2000
        },
        SolveFlag::Dnf => u32::MAX as int,
    }
}

impl TimedSolve {
    pub fn effective_time_ms(&self) -> (r: u32)
        ensures
            r == effective(*self),
    {
        match self.flag {
            SolveFlag::NoPenalty => self.time_ms,
            SolveFlag::Plus2 => self.time_ms.saturating_add(2_000),
            SolveFlag::Dnf => u32::MAX,
        }
    }
}

/// Sum of the effective times.
pub open spec fn eff_sum(w: Seq<TimedSolve>) -> int
    decreases w.len(),
{
    if w.len() == 0 {
        0
    } else {
        eff_sum(w.drop_last()) + effective(w.last())
    }
}

/// Fastest effective time (of a non-empty window).
pub open spec fn eff_min(w: Seq<TimedSolve>) -> int
    decreases w.len(),
{
    if w.len() <= 1 {
        if w.len() == 1 {
            effective(w[0])
        } else {
            0
        }
    } else {
        let m = eff_min(w.drop_last());
        let x = effective(w.last());
        if x < m {
            x
        } else {
            m
        }
    }
}

/// Slowest effective time (of a non-empty window).
pub open spec fn eff_max(w: Seq<TimedSolve>) -> int
    decreases w.len(),
{
    if w.len() <= 1 {
        if w.len() == 1 {
            effective(w[0])
        } else {
            0
        }
    } else {
        let m = eff_max(w.drop_last());
        let x = effective(w.last());
        if x > m {
            x
        } else {
            m
        }
    }
}

/// Number of DNF solves.
pub open spec fn dnf_count(w: Seq<TimedSolve>) -> nat
    decreases w.len(),
{
    if w.len() == 0 {
        0
    } else {
        dnf_count(w.drop_last()) + if w.last().flag == SolveFlag::Dnf {
            1nat
        } else {
            0nat
        }
    }
}

/// Average of a window with its fastest and slowest times dropped;
/// `None` when more than one solve of the window is a DNF (a single DNF
/// is dropped as the slowest).
pub open spec fn window_average(w: Seq<TimedSolve>) -> Option<u32> {
    if dnf_count(w) > 1 {
        None
    } else {
        Some(((eff_sum(w) - eff_min(w) - eff_max(w)) / (w.len() - 2)) as u32)
    }
}

/// WCA average of the last `n` solves; `None` with fewer than `n`
/// solves.
pub open spec fn average_spec(s: Seq<TimedSolve>, n: int) -> Option<u32> {
    if s.len() < n {
        None
    } else {
        window_average(s.subrange(s.len() - n, s.len() as int))
    }
}

/// Each effective time lies between the window's fastest and slowest,
/// and the sum minus both extremes lies between 0 and `len - 2` times the
/// slowest.
proof fn lemma_extremes(w: Seq<TimedSolve>)
    requires
        w.len() >= 2,
    ensures
        0 <= eff_min(w) <= eff_max(w) <= u32::MAX,
        eff_sum(w) - eff_min(w) - eff_max(w) >= 0,
        eff_sum(w) - eff_min(w) - eff_max(w) <= (w.len() - 2) * eff_max(w),
    decreases w.len(),
{
    let p = w.drop_last();
    let x = effective(w.last());
    if w.len() == 2 {
        assert(p.len() == 1);
        assert(eff_sum(p) == effective(p[0])) by {
            assert(p.drop_last().len() == 0);
            assert(eff_sum(p.drop_last()) == 0);
            assert(p.last() == p[0]);
        }
    } else {
        lemma_extremes(p);
        let k = w.len() - 2;
        let mx = eff_max(w);
        let pm = eff_max(p);
        assert((k - 1) * pm <= (k - 1) * mx) by (nonlinear_arith)
            requires
                pm <= mx,
                k >= 1,
        ;
        assert((k - 1) * mx + mx == k * mx) by (nonlinear_arith);
    }
}

/// The sum of a window is at least its slowest time plus the fastest for
/// every other solve.
proof fn lemma_sum_lower(w: Seq<TimedSolve>)
    requires
        w.len() >= 1,
    ensures
        eff_sum(w) >= eff_max(w) + (w.len() - 1) * eff_min(w),
        eff_min(w) <= eff_max(w),
    decreases w.len(),
{
    let p = w.drop_last();
    if w.len() == 1 {
        assert(eff_sum(p) == 0);
        assert(w.last() == w[0]);
    } else {
        lemma_sum_lower(p);
        let k = p.len() as int;
        let mn = eff_min(w);
        let pm = eff_min(p);
        assert((k - 1) * pm >= (k - 1) * mn) by (nonlinear_arith)
            requires
                pm >= mn,
                k >= 1,
        ;
        assert((k - 1) * mn + mn == k * mn) by (nonlinear_arith);
    }
}

/// An average of a window lies between the window's fastest and slowest
/// effective times.
pub proof fn lemma_average_between_extremes(w: Seq<TimedSolve>)
    requires
        w.len() >= 3,
        window_average(w) is Some,
    ensures
        eff_min(w) <= window_average(w)->Some_0 <= eff_max(w),
{
    lemma_extremes(w);
    lemma_sum_lower(w);
    let m = eff_sum(w) - eff_min(w) - eff_max(w);
    let d = w.len() - 2;
    let lo = eff_min(w);
    let hi = eff_max(w);
    assert(m >= d * lo) by (nonlinear_arith)
        requires
            eff_sum(w) >= hi + (d + 1) * lo,
            m == eff_sum(w) - lo - hi,
    ;
    assert(lo <= m / d <= hi) by (nonlinear_arith)
        requires
            d * lo <= m <= d * hi,
            d >= 1,
    ;
}

fn effective_at(solves: &[TimedSolve], i: usize) -> (r: u32)
    requires
        i < solves@.len(),
    ensures
        r == effective(solves@[i as int]),
{
    solves[i].effective_time_ms()
}

/// Average of `solves[start..start + n]` with the extremes dropped.
fn average_window(solves: &[TimedSolve], start: usize, n: usize) -> (r: Option<u32>)
    requires
        n >= 3,
        start + n <= solves@.len(),
    ensures
        r == window_average(solves@.subrange(start as int, start + n)),
{
    let ghost w = solves@.subrange(start as int, start + n);
    let len = solves.len();
    let mut sum: u128 = 0;
    let first = effective_at(solves, start);
    let mut lo: u32 = first;
    let mut hi: u32 = first;
    let mut dnfs: usize = 0;
    let mut k: usize = 0;
    while k < n
        invariant
            n >= 3,
            start + n <= solves@.len(),
            len == solves@.len(),
            w == solves@.subrange(start as int, start + n),
            k <= n,
            sum == eff_sum(w.take(k as int)),
            sum <= k * 0x1_0000_0000,
            dnfs == dnf_count(w.take(k as int)),
            dnfs <= k,
            k >= 1 ==> lo == eff_min(w.take(k as int)) && hi == eff_max(w.take(k as int)),
            k == 0 ==> lo == effective(w[0]) && hi == effective(w[0]),
        decreases n - k,
    {
        let e = effective_at(solves, start + k);
        proof {
            assert(w.take(k + 1).drop_last() =~= w.take(k as int));
            assert(w.take(k + 1).last() == solves@[start + k]);
            if k == 0 {
                assert(w.take(1).len() == 1);
                assert(w.take(1)[0] == w[0]);
            }
        }
        sum = sum + e as u128;
        if k > 0 {
            if e < lo {
                lo = e;
            }
            if e > hi {
                hi = e;
            }
        }
        if solves[start + k].flag == SolveFlag::Dnf {
            dnfs = dnfs + 1;
        }
        k = k + 1;
    }
    proof {
        assert(w.take(n as int) =~= w);
        lemma_extremes(w);
    }
    if dnfs > 1 {
        return None;
    }
    let mid = sum - lo as u128 - hi as u128;
    let avg = mid / ((n - 2) as u128);
    proof {
        let m = eff_sum(w) - eff_min(w) - eff_max(w);
        let d = n - 2;
        assert(m / d <= eff_max(w)) by (nonlinear_arith)
            requires
                0 <= m <= d * eff_max(w),
                d >= 1,
        ;
        assert(m / d >= 0) by (nonlinear_arith)
            requires
                0 <= m,
                d >= 1,
        ;
    }
    Some(avg as u32)
}

/// WCA average of the last `n` solves: drop the fastest and slowest, and
/// average the rest. `None` with fewer than `n` solves, or when more than
/// one solve of the window is a DNF.
pub fn average_of_n(solves: &[TimedSolve], n: usize) -> (r: Option<u32>)
    requires
        n >= 3 || solves@.len() < n,
    ensures
        r == average_spec(solves@, n as int),
{
    if solves.len() < n {
        return None;
    }
    average_window(solves, solves.len() - n, n)
}

/// Fastest effective time among the non-DNF solves.
pub open spec fn best_spec(s: Seq<TimedSolve>) -> Option<u32>
    decreases s.len(),
{
    if s.len() == 0 {
        None
    } else {
        let prev = best_spec(s.drop_last());
        let x = s.last();
        if x.flag == SolveFlag::Dnf {
            prev
        } else {
            match prev {
                None => Some(effective(x) as u32),
                Some(b) => if effective(x) < b {
                    Some(effective(x) as u32)
                } else {
                    Some(b)
                },
            }
        }
    }
}

/// Slowest effective time, DNFs counting as slowest.
pub open spec fn worst_spec(s: Seq<TimedSolve>) -> Option<u32> {
    if s.len() == 0 {
        None
    } else {
        Some(eff_max(s) as u32)
    }
}

/// Smallest average over the `n`-solve windows starting before `k`.
pub open spec fn best_window_upto(s: Seq<TimedSolve>, n: int, k: int) -> Option<u32>
    decreases k,
{
    if k <= 0 {
        None
    } else {
        let prev = best_window_upto(s, n, k - 1);
        match window_average(s.subrange(k - 1, k - 1 + n)) {
            None => prev,
            Some(a) => match prev {
                None => Some(a),
                Some(b) => if a < b {
                    Some(a)
                } else {
                    Some(b)
                },
            },
        }
    }
}

/// Best average of `n` over every rolling window of the session.
pub open spec fn best_average_spec(s: Seq<TimedSolve>, n: int) -> Option<u32> {
    if s.len() < n {
        None
    } else {
        best_window_upto(s, n, s.len() - n + 1)
    }
}

/// Cumulative statistics of one session.
#[derive(Debug, Clone)]
pub struct SessionStats {
    pub solves: Vec<TimedSolve>,
}

impl Default for SessionStats {
    fn default() -> (r: Self)
        ensures
            r.solves@.len() == 0,
    {
        Self { solves: Vec::new() }
    }
}

proof fn lemma_eff_max_bound(w: Seq<TimedSolve>)
    ensures
        0 <= eff_max(w) <= u32::MAX,
    decreases w.len(),
{
    if w.len() > 1 {
        lemma_eff_max_bound(w.drop_last());
    }
}

impl SessionStats {
    pub fn record(&mut self, solve: TimedSolve)
        ensures
            final(self).solves@ == old(self).solves@.push(solve),
    {
        self.solves.push(solve);
    }

    /// Best single (DNFs ignored).
    pub fn best(&self) -> (r: Option<u32>)
        ensures
            r == best_spec(self.solves@),
    {
        let mut best: Option<u32> = None;
        let mut k: usize = 0;
        while k < self.solves.len()
            invariant
                k <= self.solves@.len(),
                best == best_spec(self.solves@.take(k as int)),
            decreases self.solves@.len() - k,
        {
            proof {
                assert(self.solves@.take(k + 1).drop_last() =~= self.solves@.take(k as int));
            }
            let s = &self.solves[k];
            if s.flag != SolveFlag::Dnf {
                let e = s.effective_time_ms();
                best = match best {
                    None => Some(e),
                    Some(b) => if e < b {
                        Some(e)
                    } else {
                        Some(b)
                    },
                };
            }
            k = k + 1;
        }
        proof {
            assert(self.solves@.take(k as int) =~= self.solves@);
        }
        best
    }

    /// Worst single (DNFs count as worse than any time).
    pub fn worst(&self) -> (r: Option<u32>)
        ensures
            r == worst_spec(self.solves@),
    {
        if self.solves.len() == 0 {
            return None;
        }
        let mut hi: u32 = self.solves[0].effective_time_ms();
        let mut k: usize = 1;
        while k < self.solves.len()
            invariant
                1 <= k <= self.solves@.len(),
                hi == eff_max(self.solves@.take(k as int)),
            decreases self.solves@.len() - k,
        {
            proof {
                assert(self.solves@.take(k + 1).drop_last() =~= self.solves@.take(k as int));
            }
            let e = self.solves[k].effective_time_ms();
            if e > hi {
                hi = e;
            }
            k = k + 1;
        }
        proof {
            assert(self.solves@.take(k as int) =~= self.solves@);
            lemma_eff_max_bound(self.solves@);
        }
        Some(hi)
    }

    pub fn ao5(&self) -> (r: Option<u32>)
        ensures
            r == average_spec(self.solves@, 5),
    {
        average_of_n(self.solves.as_slice(), 5)
    }

    pub fn ao12(&self) -> (r: Option<u32>)
        ensures
            r == average_spec(self.solves@, 12),
    {
        average_of_n(self.solves.as_slice(), 12)
    }

    fn best_average(&self, n: usize) -> (r: Option<u32>)
        requires
            n >= 3,
        ensures
            r == best_average_spec(self.solves@, n as int),
    {
        if self.solves.len() < n {
            return None;
        }
        let len = self.solves.len();
        let last = len - n;
        let mut best: Option<u32> = None;
        let mut i: usize = 0;
        while i <= last
            invariant
                n >= 3,
                last == self.solves@.len() - n,
                len == self.solves@.len(),
                i <= last + 1,
                best == best_window_upto(self.solves@, n as int, i as int),
            decreases last + 1 - i,
        {
            let a = average_window(self.solves.as_slice(), i, n);
            best = match a {
                None => best,
                Some(x) => match best {
                    None => Some(x),
                    Some(b) => if x < b {
                        Some(x)
                    } else {
                        Some(b)
                    },
                },
            };
            i = i + 1;
        }
        best
    }

    /// Best average of 5 over every rolling window of 5 solves.
    pub fn best_ao5(&self) -> (r: Option<u32>)
        ensures
            r == best_average_spec(self.solves@, 5),
    {
        self.best_average(5)
    }

    /// Best average of 12 over every rolling window of 12 solves.
    pub fn best_ao12(&self) -> (r: Option<u32>)
        ensures
            r == best_average_spec(self.solves@, 12),
    {
        self.best_average(12)
    }

    pub fn count(&self) -> (r: usize)
        ensures
            r == self.solves@.len(),
    {
        self.solves.len()
    }
}

} // verus!
