//! Drill modes, drill cases and per-case statistics, with a drill pick
//! biased toward the cases where the user is slow.

use vstd::prelude::*;
use vstd::string::StringSliceAdditionalSpecFns;
use rand::Rng;
use rand_chacha::ChaCha8Rng;
use crate::moves::{Move, MoveSeq, seq_inverse};
use crate::parser::parse_spec;
use crate::render::{CubeState, PendingMoves};
use crate::trainer::timer::{TimerPhase, TimerState, WCA_INSPECTION_NS};

verus! {

#[derive(Debug, Clone, Copy, PartialEq, Eq, Hash, Structural)]
pub enum DrillMode {
    SpeedSolve,
    Oll,
    Pll,
    F2l,
    /// OLL and PLL combined, after the first two layers.
    LastLayer,
    Cross,
}

impl DrillMode {
    pub fn label(&self) -> (r: &'static str)
        ensures
            r == (match *self {
                DrillMode::SpeedSolve => "speed-solve",
                DrillMode::Oll => "OLL",
                DrillMode::Pll => "PLL",
                DrillMode::F2l => "F2L",
                DrillMode::LastLayer => "last-layer",
                DrillMode::Cross => "cross",
            }),
    {
        match self {
            DrillMode::SpeedSolve => "speed-solve",
            DrillMode::Oll => "OLL",
            DrillMode::Pll => "PLL",
            DrillMode::F2l => "F2L",
            DrillMode::LastLayer => "last-layer",
            DrillMode::Cross => "cross",
        }
    }
}

/// A named pre-solve state: applying `setup` to a solved cube puts it in
/// the case's recognition state.
#[derive(Debug, Clone)]
pub struct DrillCase {
    /// Stable identifier, the key of [`PerCaseStats`].
    pub id: String,
    pub mode: DrillMode,
    pub display_name: String,
    pub setup: MoveSeq,
    /// One known-good algorithm, as a hint.
    pub canonical_algorithm: Option<String>,
}

/// Every attempt's time in milliseconds, per case id. No id occurs twice.
#[derive(Debug, Clone)]
pub struct PerCaseStats {
    pub by_case: Vec<(String, Vec<u32>)>,
}

/// Position of the entry for `key` in `entries`, or -1.
pub open spec fn key_pos(entries: Seq<(String, Vec<u32>)>, key: Seq<char>) -> int
    decreases entries.len(),
{
    if entries.len() == 0 {
        -1
    } else if entries.last().0@ == key {
        entries.len() - 1
    } else {
        key_pos(entries.drop_last(), key)
    }
}

proof fn lemma_key_pos(entries: Seq<(String, Vec<u32>)>, key: Seq<char>)
    ensures
        -1 <= key_pos(entries, key) < entries.len(),
        key_pos(entries, key) >= 0 ==> entries[key_pos(entries, key)].0@ == key,
        key_pos(entries, key) == -1 <==> forall|i: int| 0 <= i < entries.len() ==> (#[trigger] entries[i]).0@ != key,
    decreases entries.len(),
{
    if entries.len() > 0 {
        lemma_key_pos(entries.drop_last(), key);
        if entries.last().0@ != key {
            assert forall|i: int| 0 <= i < entries.len() - 1 implies (#[trigger] entries[i]).0@ == entries.drop_last()[i].0@ by {}
        }
    }
}

/// Tables with the same key at every position find every key at the same
/// position.
proof fn lemma_same_keys(a: Seq<(String, Vec<u32>)>, b: Seq<(String, Vec<u32>)>, key: Seq<char>)
    requires
        a.len() == b.len(),
        forall|i: int| 0 <= i < a.len() ==> (#[trigger] a[i]).0@ == b[i].0@,
    ensures
        key_pos(a, key) == key_pos(b, key),
    decreases a.len(),
{
    if a.len() > 0 {
        assert(a.last().0@ == b.last().0@);
        assert forall|i: int| 0 <= i < a.len() - 1 implies (#[trigger] a.drop_last()[i]).0@ == b.drop_last()[i].0@ by {
            assert(a[i].0@ == b[i].0@);
        }
        lemma_same_keys(a.drop_last(), b.drop_last(), key);
    }
}

/// Times of all attempts on the case `key`.
pub open spec fn times_of(entries: Seq<(String, Vec<u32>)>, key: Seq<char>) -> Option<Seq<u32>> {
    let p = key_pos(entries, key);
    if p >= 0 {
        Some(entries[p].1@)
    } else {
        None
    }
}

pub open spec fn u32_sum(s: Seq<u32>) -> int
    decreases s.len(),
{
    if s.len() == 0 {
        0
    } else {
        u32_sum(s.drop_last()) + s.last()
    }
}

pub open spec fn u32_min(s: Seq<u32>) -> u32
    decreases s.len(),
{
    if s.len() <= 1 {
        if s.len() == 1 {
            s[0]
        } else {
            0
        }
    } else {
        let m = u32_min(s.drop_last());
        if s.last() < m {
            s.last()
        } else {
            m
        }
    }
}

pub open spec fn u32_max(s: Seq<u32>) -> u32
    decreases s.len(),
{
    if s.len() <= 1 {
        if s.len() == 1 {
            s[0]
        } else {
            0
        }
    } else {
        let m = u32_max(s.drop_last());
        if s.last() > m {
            s.last()
        } else {
            m
        }
    }
}

/// Mean attempt time of a case, rounded down; `None` when it was never
/// attempted.
pub open spec fn average_of(entries: Seq<(String, Vec<u32>)>, key: Seq<char>) -> Option<u32> {
    match times_of(entries, key) {
        Some(t) => if t.len() == 0 {
            None
        } else {
            Some((u32_sum(t) / (t.len() as int)) as u32)
        },
        None => None,
    }
}

proof fn lemma_sum_bound(s: Seq<u32>)
    ensures
        0 <= u32_sum(s) <= s.len() * u32_max(s),
        s.len() > 0 ==> u32_sum(s) <= s.len() * u32::MAX,
    decreases s.len(),
{
    if s.len() > 0 {
        let p = s.drop_last();
        lemma_sum_bound(p);
        let k = p.len();
        let mp = u32_max(p);
        let m = u32_max(s);
        if k > 0 {
            assert(k * mp <= k * m) by (nonlinear_arith)
                requires
                    mp <= m,
                    k >= 0,
            ;
        } else {
            assert(u32_sum(p) == 0);
        }
        assert(k * m + m == (k + 1) * m) by (nonlinear_arith);
        assert(k * m <= k * u32::MAX) by (nonlinear_arith)
            requires
                m <= u32::MAX,
                k >= 0,
        ;
        assert(k * u32::MAX + u32::MAX == (k + 1) * u32::MAX) by (nonlinear_arith);
    }
}

impl PerCaseStats {
    pub open spec fn wf(&self) -> bool {
        forall|i: int, j: int|
            0 <= i < j < self.by_case@.len() ==> (#[trigger] self.by_case@[i]).0@ != (#[trigger] self.by_case@[j]).0@
    }

    pub fn new() -> (r: Self)
        ensures
            r.wf(),
            forall|k: Seq<char>| times_of(r.by_case@, k) is None,
    {
        let r = Self { by_case: Vec::new() };
        proof {
            assert forall|k: Seq<char>| times_of(r.by_case@, k) is None by {
                lemma_key_pos(r.by_case@, k);
            }
        }
        r
    }

    fn find(&self, case_id: &str) -> (r: Option<usize>)
        ensures
            r is None <==> key_pos(self.by_case@, case_id@) < 0,
            r matches Some(i) ==> i as int == key_pos(self.by_case@, case_id@),
    {
        let key = case_id.to_owned();
        let mut i: usize = self.by_case.len();
        proof {
            assert(self.by_case@.take(i as int) =~= self.by_case@);
        }
        while i > 0
            invariant
                i <= self.by_case@.len(),
                key@ == case_id@,
                key_pos(self.by_case@, case_id@) == key_pos(self.by_case@.take(i as int), case_id@),
            decreases i,
        {
            proof {
                assert(self.by_case@.take(i as int).drop_last() =~= self.by_case@.take(i - 1));
                assert(self.by_case@.take(i as int).last() == self.by_case@[i - 1]);
            }
            if self.by_case[i - 1].0 == key {
                return Some(i - 1);
            }
            i = i - 1;
        }
        None
    }

    /// Record an attempt at `case_id`.
    pub fn record(&mut self, case_id: &str, time_ms: u32)
        requires
            old(self).wf(),
        ensures
            final(self).wf(),
            times_of(final(self).by_case@, case_id@) == Some(
                match times_of(old(self).by_case@, case_id@) {
                    Some(t) => t,
                    None => Seq::<u32>::empty(),
                }.push(time_ms),
            ),
            forall|k: Seq<char>| k != case_id@ ==> times_of(final(self).by_case@, k) == times_of(old(self).by_case@, k),
    {
        proof {
            lemma_key_pos(self.by_case@, case_id@);
        }
        match self.find(case_id) {
            Some(i) => {
                let key = self.by_case[i].0.clone();
                let mut times = self.by_case[i].1.clone();
                proof {
                    assert(times@ =~= old(self).by_case@[i as int].1@);
                }
                times.push(time_ms);
                self.by_case.set(i, (key, times));
                proof {
                    assert forall|j: int| 0 <= j < self.by_case@.len() implies (#[trigger] self.by_case@[j]).0@
                        == old(self).by_case@[j].0@ by {}
                    assert forall|k: Seq<char>| k != case_id@ implies times_of(self.by_case@, k) == times_of(
                        old(self).by_case@,
                        k,
                    ) by {
                        lemma_same_keys(self.by_case@, old(self).by_case@, k);
                        lemma_key_pos(old(self).by_case@, k);
                    }
                    lemma_same_keys(self.by_case@, old(self).by_case@, case_id@);
                }
            },
            None => {
                let mut times: Vec<u32> = Vec::new();
                times.push(time_ms);
                self.by_case.push((case_id.to_owned(), times));
                proof {
                    assert forall|k: Seq<char>| k != case_id@ implies times_of(self.by_case@, k) == times_of(
                        old(self).by_case@,
                        k,
                    ) by {
                        lemma_key_pos(self.by_case@, k);
                        lemma_key_pos(old(self).by_case@, k);
                        assert(self.by_case@.drop_last() =~= old(self).by_case@);
                    }
                    assert(self.by_case@[self.by_case@.len() - 1].1@ == seq![time_ms]);
                    assert(Seq::<u32>::empty().push(time_ms) =~= seq![time_ms]);
                }
            },
        }
    }

    /// Number of attempts at `case_id`.
    pub fn count(&self, case_id: &str) -> (r: usize)
        ensures
            r == (match times_of(self.by_case@, case_id@) {
                Some(t) => t.len(),
                None => 0,
            }),
    {
        proof {
            lemma_key_pos(self.by_case@, case_id@);
        }
        match self.find(case_id) {
            Some(i) => {
                assert(key_pos(self.by_case@, case_id@) == i as int);
                assert(times_of(self.by_case@, case_id@) == Some(self.by_case@[i as int].1@));
                self.by_case[i].1.len()
            },
            None => 0,
        }
    }

    /// Mean attempt time, rounded down; `None` when never attempted.
    pub fn average(&self, case_id: &str) -> (r: Option<u32>)
        ensures
            r == average_of(self.by_case@, case_id@),
    {
        proof {
            lemma_key_pos(self.by_case@, case_id@);
        }
        let i = match self.find(case_id) {
            Some(i) => i,
            None => {
                return None;
            },
        };
        let times = &self.by_case[i].1;
        if times.len() == 0 {
            return None;
        }
        let mut sum: u128 = 0;
        let mut k: usize = 0;
        while k < times.len()
            invariant
                k <= times@.len(),
                sum == u32_sum(times@.take(k as int)),
                sum <= k * 0x1_0000_0000,
            decreases times@.len() - k,
        {
            proof {
                assert(times@.take(k + 1).drop_last() =~= times@.take(k as int));
            }
            sum = sum + times[k] as u128;
            k = k + 1;
        }
        proof {
            assert(times@.take(k as int) =~= times@);
            lemma_sum_bound(times@);
            let t = times@;
            let n = t.len() as int;
            assert(u32_sum(t) / n <= u32::MAX) by (nonlinear_arith)
                requires
                    0 <= u32_sum(t) <= n * u32::MAX,
                    n >= 1,
            ;
            assert(u32_sum(t) / n >= 0) by (nonlinear_arith)
                requires
                    0 <= u32_sum(t),
                    n >= 1,
            ;
        }
        Some((sum / (times.len() as u128)) as u32)
    }

    /// Fastest attempt; `None` when never attempted.
    pub fn best(&self, case_id: &str) -> (r: Option<u32>)
        ensures
            r == (match times_of(self.by_case@, case_id@) {
                Some(t) => if t.len() == 0 {
                    None
                } else {
                    Some(u32_min(t))
                },
                None => None,
            }),
    {
        proof {
            lemma_key_pos(self.by_case@, case_id@);
        }
        let i = match self.find(case_id) {
            Some(i) => i,
            None => {
                return None;
            },
        };
        let times = &self.by_case[i].1;
        if times.len() == 0 {
            return None;
        }
        let mut lo = times[0];
        let mut k: usize = 1;
        while k < times.len()
            invariant
                1 <= k <= times@.len(),
                lo == u32_min(times@.take(k as int)),
            decreases times@.len() - k,
        {
            proof {
                assert(times@.take(k + 1).drop_last() =~= times@.take(k as int));
            }
            if times[k] < lo {
                lo = times[k];
            }
            k = k + 1;
        }
        proof {
            assert(times@.take(k as int) =~= times@);
        }
        Some(lo)
    }

    /// Slowest attempt; `None` when never attempted.
    pub fn worst(&self, case_id: &str) -> (r: Option<u32>)
        ensures
            r == (match times_of(self.by_case@, case_id@) {
                Some(t) => if t.len() == 0 {
                    None
                } else {
                    Some(u32_max(t))
                },
                None => None,
            }),
    {
        proof {
            lemma_key_pos(self.by_case@, case_id@);
        }
        let i = match self.find(case_id) {
            Some(i) => i,
            None => {
                return None;
            },
        };
        let times = &self.by_case[i].1;
        if times.len() == 0 {
            return None;
        }
        let mut hi = times[0];
        let mut k: usize = 1;
        while k < times.len()
            invariant
                1 <= k <= times@.len(),
                hi == u32_max(times@.take(k as int)),
            decreases times@.len() - k,
        {
            proof {
                assert(times@.take(k + 1).drop_last() =~= times@.take(k as int));
            }
            if times[k] > hi {
                hi = times[k];
            }
            k = k + 1;
        }
        proof {
            assert(times@.take(k as int) =~= times@);
        }
        Some(hi)
    }
}


/// Drill priority key of a case from its average: untried cases first,
/// then slower averages before faster ones.
pub open spec fn rank_key(avg: Option<u32>) -> int {
    match avg {
        None => 0,
        Some(a) => 1 + (u32::MAX - a),
    }
}

/// Keys of the candidates under the statistics `stats`.
pub open spec fn case_keys(stats: Seq<(String, Vec<u32>)>, cases: Seq<DrillCase>) -> Seq<int> {
    cases.map_values(|c: DrillCase| rank_key(average_of(stats, c.id@)))
}

/// `ord` lists every index of `keys` once, by ascending key, with equal
/// keys in index order.
pub open spec fn ranked(keys: Seq<int>, ord: Seq<int>) -> bool {
    &&& ord.len() == keys.len()
    &&& forall|a: int| 0 <= a < ord.len() ==> 0 <= #[trigger] ord[a] < keys.len()
    &&& forall|i: int| 0 <= i < keys.len() ==> #[trigger] lists(ord, i)
    &&& forall|a: int, b: int|
        0 <= a < b < ord.len() ==> keys[#[trigger] ord[a]] < keys[#[trigger] ord[b]] || (keys[ord[a]] == keys[ord[b]]
            && ord[a] < ord[b])
}

/// `i` occurs in `ord`.
pub open spec fn lists(ord: Seq<int>, i: int) -> bool {
    exists|a: int| 0 <= a < ord.len() && ord[a] == i
}

pub open spec fn usize_ints(s: Seq<usize>) -> Seq<int> {
    s.map_values(|i: usize| i as int)
}

fn rank_key_of(avg: Option<u32>) -> (r: u64)
    ensures
        r == rank_key(avg),
{
    match avg {
        None => 0,
        Some(a) => 1 + (u32::MAX - a) as u64,
    }
}

/// Indices of `cases` in drill priority order.
fn weakness_order(stats: &PerCaseStats, cases: &[DrillCase]) -> (r: Vec<usize>)
    ensures
        ranked(case_keys(stats.by_case@, cases@), usize_ints(r@)),
{
    let ghost keys = case_keys(stats.by_case@, cases@);
    let n = cases.len();
    let mut kv: Vec<u64> = Vec::new();
    let mut i: usize = 0;
    while i < n
        invariant
            n == cases@.len(),
            keys == case_keys(stats.by_case@, cases@),
            i <= n,
            kv@.len() == i,
            forall|j: int| 0 <= j < i ==> kv@[j] == keys[j],
        decreases n - i,
    {
        let k = rank_key_of(stats.average(cases[i].id.as_str()));
        kv.push(k);
        i = i + 1;
    }
    let mut ord: Vec<usize> = Vec::new();
    let mut k: usize = 0;
    while k < n
        invariant
            n == cases@.len(),
            keys.len() == n,
            kv@.len() == n,
            forall|j: int| 0 <= j < n ==> kv@[j] == keys[j],
            k <= n,
            ord@.len() == k,
            forall|a: int| 0 <= a < ord@.len() ==> #[trigger] ord@[a] < k,
            forall|j: int| 0 <= j < k ==> #[trigger] lists(usize_ints(ord@), j),
            forall|a: int, b: int|
                0 <= a < b < ord@.len() ==> keys[#[trigger] ord@[a] as int] < keys[#[trigger] ord@[b] as int] || (
                keys[ord@[a] as int] == keys[ord@[b] as int] && ord@[a] < ord@[b]),
        decreases n - k,
    {
        let key = kv[k];
        let mut p: usize = 0;
        while p < ord.len() && kv[ord[p]] <= key
            invariant
                kv@.len() == n,
                ord@.len() == k,
                k < n,
                forall|a: int| 0 <= a < ord@.len() ==> #[trigger] ord@[a] < k,
                p <= ord@.len(),
                forall|a: int| 0 <= a < p ==> kv@[#[trigger] ord@[a] as int] <= key,
            decreases ord@.len() - p,
        {
            p = p + 1;
        }
        let ghost old_ord = ord@;
        ord.insert(p, k);
        proof {
            assert forall|a: int| 0 <= a < ord@.len() implies #[trigger] ord@[a] < k + 1 by {
                if a < p {
                    assert(ord@[a] == old_ord[a]);
                } else if a > p {
                    assert(ord@[a] == old_ord[a - 1]);
                }
            }
            assert forall|j: int| 0 <= j < k + 1 implies #[trigger] lists(usize_ints(ord@), j) by {
                if j == k {
                    assert(usize_ints(ord@)[p as int] == k);
                } else {
                    assert(lists(usize_ints(old_ord), j));
                    let a0 = choose|a: int| 0 <= a < old_ord.len() && usize_ints(old_ord)[a] == j;
                    if a0 < p {
                        assert(usize_ints(ord@)[a0] == j);
                    } else {
                        assert(usize_ints(ord@)[a0 + 1] == j);
                    }
                }
            }
            assert forall|a: int, b: int| 0 <= a < b < ord@.len() implies keys[#[trigger] ord@[a] as int]
                < keys[#[trigger] ord@[b] as int] || (keys[ord@[a] as int] == keys[ord@[b] as int] && ord@[a] < ord@[b]) by {
                if b < p {
                    assert(ord@[a] == old_ord[a] && ord@[b] == old_ord[b]);
                } else if b == p {
                    assert(ord@[a] == old_ord[a]);
                    assert(kv@[old_ord[a] as int] <= key);
                } else if a == p {
                    assert(ord@[b] == old_ord[b - 1]);
                    if b - 1 == p {
                        assert(!(kv@[old_ord[p as int] as int] <= key));
                    } else {
                        assert(keys[old_ord[p as int] as int] < keys[old_ord[b - 1] as int] || (keys[old_ord[p as int] as int]
                            == keys[old_ord[b - 1] as int] && old_ord[p as int] < old_ord[b - 1]));
                        assert(!(kv@[old_ord[p as int] as int] <= key));
                    }
                } else if a < p {
                    assert(ord@[a] == old_ord[a] && ord@[b] == old_ord[b - 1]);
                } else {
                    assert(ord@[a] == old_ord[a - 1] && ord@[b] == old_ord[b - 1]);
                }
            }
        }
        k = k + 1;
    }
    proof {
        let oi = usize_ints(ord@);
        assert forall|a: int| 0 <= a < oi.len() implies 0 <= #[trigger] oi[a] < keys.len() by {
            assert(ord@[a] < n);
        }
        assert forall|j: int| 0 <= j < keys.len() implies #[trigger] lists(oi, j) by {
            assert(lists(usize_ints(ord@), j));
        }
        assert forall|a: int, b: int| 0 <= a < b < oi.len() implies keys[#[trigger] oi[a]] < keys[#[trigger] oi[b]] || (
        keys[oi[a]] == keys[oi[b]] && oi[a] < oi[b]) by {
            assert(ord@[a] == oi[a] && ord@[b] == oi[b]);
        }
    }
    ord
}

impl PerCaseStats {
    /// Order cases by weakness: untried cases first, then cases whose
    /// average is slowest; equal keys keep their order.
    pub fn weakness_ranking<'a>(&self, candidates: &'a [DrillCase]) -> (r: Vec<&'a DrillCase>)
        ensures
            exists|ord: Seq<int>|
                #![trigger ranked(case_keys(self.by_case@, candidates@), ord)]
                ranked(case_keys(self.by_case@, candidates@), ord) && r@.len() == ord.len() && forall|a: int|
                    0 <= a < ord.len() ==> *r@[a] == candidates@[#[trigger] ord[a]],
    {
        let ord = weakness_order(self, candidates);
        let ghost oi = usize_ints(ord@);
        let mut out: Vec<&'a DrillCase> = Vec::new();
        let mut a: usize = 0;
        while a < ord.len()
            invariant
                ranked(case_keys(self.by_case@, candidates@), oi),
                oi == usize_ints(ord@),
                a <= ord@.len(),
                out@.len() == a,
                forall|b: int| 0 <= b < a ==> *out@[b] == candidates@[#[trigger] oi[b]],
            decreases ord@.len() - a,
        {
            proof {
                assert(oi[a as int] == ord@[a as int]);
                assert(0 <= oi[a as int] < candidates@.len());
            }
            out.push(&candidates[ord[a]]);
            a = a + 1;
        }
        out
    }
}

/// A uniform random number below `bound`
/// (`rand::Rng::random_range(0..bound)`, which panics on an empty range).
#[verifier::external_body]
fn random_roll(rng: &mut ChaCha8Rng, bound: u64) -> (r: u64)
    requires
        bound > 0,
    ensures
        r < bound,
{
    rng.random_range(0..bound)
}

/// A uniform random index below `len`
/// (`rand::Rng::random_range(0..len)`, which panics on an empty range).
#[verifier::external_body]
fn random_index(rng: &mut ChaCha8Rng, len: usize) -> (r: usize)
    requires
        len > 0,
    ensures
        r < len,
{
    rng.random_range(0..len)
}

/// Pick weight of a tried case: its average squared (saturating), an
/// average of zero counting as zero and a missing one as 1.
pub open spec fn weight_of(avg: Option<u32>) -> int {
    let a = match avg {
        Some(a) => a as int,
        None => 1,
    };
    if a * a > u64::MAX {
        u64::MAX as int
    } else {
        a * a
    }
}

pub open spec fn case_weights(stats: Seq<(String, Vec<u32>)>, cases: Seq<DrillCase>) -> Seq<int> {
    cases.map_values(|c: DrillCase| weight_of(average_of(stats, c.id@)))
}

pub open spec fn int_sum(s: Seq<int>) -> int
    decreases s.len(),
{
    if s.len() == 0 {
        0
    } else {
        int_sum(s.drop_last()) + s.last()
    }
}

/// Index picked by `roll` against cumulative weights: the first index
/// whose cumulative weight exceeds the roll.
pub open spec fn weighted_index(ws: Seq<int>, roll: int) -> int
    decreases ws.len(),
{
    if ws.len() == 0 {
        -1
    } else if roll < ws[0] {
        0
    } else {
        let rest = weighted_index(ws.drop_first(), roll - ws[0]);
        if rest < 0 {
            -1
        } else {
            1 + rest
        }
    }
}

/// Whether the case is untried under `stats`.
pub open spec fn untried(stats: Seq<(String, Vec<u32>)>, c: DrillCase) -> bool {
    match times_of(stats, c.id@) {
        Some(t) => t.len() == 0,
        None => true,
    }
}

proof fn lemma_int_sum_front(ws: Seq<int>)
    requires
        ws.len() > 0,
    ensures
        int_sum(ws) == ws[0] + int_sum(ws.drop_first()),
    decreases ws.len(),
{
    if ws.len() > 1 {
        lemma_int_sum_front(ws.drop_last());
        assert(ws.drop_last().drop_first() =~= ws.drop_first().drop_last());
        assert(ws.drop_first().last() == ws.last());
        assert(ws.drop_last()[0] == ws[0]);
        assert(int_sum(ws.drop_first()) == int_sum(ws.drop_first().drop_last()) + ws.drop_first().last());
    } else {
        assert(ws.drop_first().len() == 0);
        assert(ws.drop_last().len() == 0);
        assert(int_sum(ws.drop_first()) == 0);
        assert(int_sum(ws.drop_last()) == 0);
        assert(ws.last() == ws[0]);
    }
}

proof fn lemma_weighted_index_range(ws: Seq<int>, roll: int)
    requires
        forall|i: int| 0 <= i < ws.len() ==> ws[i] >= 0,
        0 <= roll < int_sum(ws),
    ensures
        0 <= weighted_index(ws, roll) < ws.len(),
    decreases ws.len(),
{
    if ws.len() == 0 {
    } else {
        lemma_int_sum_front(ws);
        if roll >= ws[0] {
            lemma_weighted_index_range(ws.drop_first(), roll - ws[0]);
        }
    }
}

/// Pick a drill case: a uniformly random untried case when there is one;
/// otherwise a case drawn with probability proportional to its weight
/// (uniformly when every weight is zero). `None` only when there are no
/// candidates.
pub fn pick_drill_case<'a>(candidates: &'a [DrillCase], stats: &PerCaseStats, rng: &mut ChaCha8Rng) -> (r: Option<
    &'a DrillCase,
>)
    requires
        int_sum(case_weights(stats.by_case@, candidates@)) <= u64::MAX,
    ensures
        r is None <==> candidates@.len() == 0,
        r matches Some(c) ==> exists|i: int| 0 <= i < candidates@.len() && *c == #[trigger] candidates@[i],
        (exists|i: int| 0 <= i < candidates@.len() && untried(stats.by_case@, #[trigger] candidates@[i])) ==> (r matches Some(
            c,
        ) && untried(stats.by_case@, *c)),
        (forall|i: int| 0 <= i < candidates@.len() ==> !untried(stats.by_case@, #[trigger] candidates@[i])) && int_sum(
            case_weights(stats.by_case@, candidates@),
        ) > 0 ==> (r matches Some(c) && exists|roll: int|
            0 <= roll < int_sum(case_weights(stats.by_case@, candidates@)) && *c == candidates@[#[trigger] weighted_index(
                case_weights(stats.by_case@, candidates@),
                roll,
            )]),
{
    let n = candidates.len();
    if n == 0 {
        return None;
    }
    let mut untried_idx: Vec<usize> = Vec::new();
    let mut i: usize = 0;
    while i < n
        invariant
            n == candidates@.len(),
            i <= n,
            forall|a: int| 0 <= a < untried_idx@.len() ==> #[trigger] untried_idx@[a] < n && untried(
                stats.by_case@,
                candidates@[untried_idx@[a] as int],
            ),
            forall|j: int| 0 <= j < i && untried(stats.by_case@, #[trigger] candidates@[j]) ==> untried_idx@.len() > 0,
        decreases n - i,
    {
        if stats.count(candidates[i].id.as_str()) == 0 {
            untried_idx.push(i);
        }
        i = i + 1;
    }
    if untried_idx.len() > 0 {
        let k = random_index(rng, untried_idx.len());
        let idx = untried_idx[k];
        return Some(&candidates[idx]);
    }
    let ghost ws = case_weights(stats.by_case@, candidates@);
    let mut weights: Vec<u64> = Vec::new();
    let mut total: u64 = 0;
    let mut i: usize = 0;
    while i < n
        invariant
            n == candidates@.len(),
            ws == case_weights(stats.by_case@, candidates@),
            int_sum(ws) <= u64::MAX,
            forall|a: int| 0 <= a < n ==> !untried(stats.by_case@, #[trigger] candidates@[a]),
            i <= n,
            weights@.len() == i,
            forall|j: int| 0 <= j < i ==> weights@[j] == ws[j],
            total == int_sum(ws.take(i as int)),
        decreases n - i,
    {
        let avg = match stats.average(candidates[i].id.as_str()) {
            Some(a) => a,
            None => 1,
        };
        proof {
            assert((avg as u128) * (avg as u128) <= 0xffff_ffff_u128 * 0xffff_ffff_u128) by (nonlinear_arith)
                requires
                    avg <= 0xffff_ffff_u32,
            ;
        }
        let sq = (avg as u128) * (avg as u128);
        let w: u64 = if sq > u64::MAX as u128 {
            u64::MAX
        } else {
            sq as u64
        };
        proof {
            assert(ws.take(i + 1).drop_last() =~= ws.take(i as int));
            lemma_prefix_sum_mono(ws, i + 1);
        }
        weights.push(w);
        total = total + w;
        i = i + 1;
    }
    proof {
        assert(ws.take(n as int) =~= ws);
    }
    if total == 0 {
        let idx = random_index(rng, n);
        return Some(&candidates[idx]);
    }
    let roll0 = random_roll(rng, total);
    let mut roll = roll0;
    let mut j: usize = 0;
    while j < n
        invariant
            n == candidates@.len(),
            ws == case_weights(stats.by_case@, candidates@),
            weights@.len() == n,
            forall|a: int| 0 <= a < n ==> weights@[a] == ws[a],
            forall|a: int| 0 <= a < n ==> !untried(stats.by_case@, #[trigger] candidates@[a]),
            j <= n,
            0 <= roll,
            roll0 < int_sum(ws),
            roll == roll0 - int_sum(ws.take(j as int)),
            weighted_index(ws, roll0 as int) == if weighted_index(ws.skip(j as int), roll as int) < 0 {
                -1
            } else {
                j + weighted_index(ws.skip(j as int), roll as int)
            },
        decreases n - j,
    {
        proof {
            let t = ws.skip(j as int);
            assert(t[0] == ws[j as int]);
            assert(t.drop_first() =~= ws.skip(j + 1));
            assert(ws.take(j + 1).drop_last() =~= ws.take(j as int));
        }
        if roll < weights[j] {
            return Some(&candidates[j]);
        }
        roll = roll - weights[j];
        j = j + 1;
    }
    proof {
        lemma_weights_nonneg(ws);
        lemma_weighted_index_range(ws, roll0 as int);
        assert(ws.skip(n as int).len() == 0);
        assert(ws.take(n as int) =~= ws);
        assert(false);
    }
    None
}

/// Whether the drill weights of `candidates` sum to at most `u64::MAX`,
/// as [`pick_drill_case`] requires.
pub fn weights_fit(candidates: &[DrillCase], stats: &PerCaseStats) -> (r: bool)
    ensures
        r == (int_sum(case_weights(stats.by_case@, candidates@)) <= u64::MAX),
{
    let ghost ws = case_weights(stats.by_case@, candidates@);
    proof {
        lemma_weights_nonneg(ws);
    }
    let n = candidates.len();
    let mut total: u128 = 0;
    let mut i: usize = 0;
    while i < n
        invariant
            n == candidates@.len(),
            ws == case_weights(stats.by_case@, candidates@),
            forall|a: int| 0 <= a < ws.len() ==> ws[a] >= 0,
            i <= n,
            total == int_sum(ws.take(i as int)),
            total <= u64::MAX,
        decreases n - i,
    {
        let avg = match stats.average(candidates[i].id.as_str()) {
            Some(a) => a,
            None => 1,
        };
        proof {
            assert((avg as u128) * (avg as u128) <= 0xffff_ffff_u128 * 0xffff_ffff_u128) by (nonlinear_arith)
                requires
                    avg <= 0xffff_ffff_u32,
            ;
        }
        let sq = (avg as u128) * (avg as u128);
        let w: u128 = if sq > u64::MAX as u128 {
            u64::MAX as u128
        } else {
            sq
        };
        proof {
            assert(ws.take(i + 1).drop_last() =~= ws.take(i as int));
        }
        total = total + w;
        if total > u64::MAX as u128 {
            proof {
                lemma_prefix_sum_mono(ws, i + 1);
            }
            return false;
        }
        i = i + 1;
    }
    proof {
        assert(ws.take(n as int) =~= ws);
    }
    true
}

proof fn lemma_weights_nonneg(ws: Seq<int>)
    requires
        exists|s: Seq<(String, Vec<u32>)>, c: Seq<DrillCase>| ws == case_weights(s, c),
    ensures
        forall|i: int| 0 <= i < ws.len() ==> ws[i] >= 0,
{
}

proof fn lemma_prefix_sum_mono(ws: Seq<int>, k: int)
    requires
        0 <= k <= ws.len(),
        forall|i: int| 0 <= i < ws.len() ==> ws[i] >= 0,
    ensures
        int_sum(ws.take(k)) <= int_sum(ws),
    decreases ws.len() - k,
{
    if k < ws.len() {
        lemma_prefix_sum_mono(ws, k + 1);
        assert(ws.take(k + 1).drop_last() =~= ws.take(k));
    } else {
        assert(ws.take(k) =~= ws);
    }
}


/// The moves a notation parses to on a 3×3; empty when it does not parse.
pub open spec fn parsed3(text: &str) -> Seq<Move> {
    match parse_spec(text.spec_bytes(), 3) {
        Ok(ms) => ms,
        Err(_) => Seq::empty(),
    }
}

/// The starter OLL cases as `(id, display name, algorithm)`.
pub open spec fn starter_oll_table() -> Seq<(&'static str, &'static str, &'static str)> {
    seq![
        ("oll-21-h", "OLL 21 (H)", "R U2 R' U' R U R' U' R U' R'"),
        ("oll-22-pi", "OLL 22 (Pi)", "R U2 R2 U' R2 U' R2 U2 R"),
        ("oll-27-sune", "OLL 27 (Sune)", "R U R' U R U2 R'"),
        ("oll-26-anti-sune", "OLL 26 (Anti-Sune)", "R U2 R' U' R U' R'"),
        ("oll-23-h-cross", "OLL 23 (H-cross)", "R2 D R' U2 R D' R' U2 R'")
    ]
}

/// The drill case described by a row of the starter table: its setup is
/// the inverse of its algorithm.
pub open spec fn oll_case_matches(c: DrillCase, row: (&'static str, &'static str, &'static str)) -> bool {
    &&& c.id@ == row.0@
    &&& c.mode == DrillMode::Oll
    &&& c.display_name@ == row.1@
    &&& c.setup.0@ == seq_inverse(parsed3(row.2))
    &&& c.canonical_algorithm matches Some(a) && a@ == row.2@
}

fn oll_case(id: &str, name: &str, algorithm: &str) -> (r: DrillCase)
    ensures
        r.id@ == id@,
        r.mode == DrillMode::Oll,
        r.display_name@ == name@,
        r.setup.0@ == seq_inverse(parsed3(algorithm)),
        r.canonical_algorithm matches Some(a) && a@ == algorithm@,
{
    let moves = match MoveSeq::parse(algorithm, 3) {
        Ok(ms) => ms,
        Err(_) => MoveSeq::new(),
    };
    DrillCase {
        id: id.to_owned(),
        mode: DrillMode::Oll,
        display_name: name.to_owned(),
        setup: moves.inverse(),
        canonical_algorithm: Some(algorithm.to_owned()),
    }
}

/// A small starter library of OLL cases; each setup is the inverse of the
/// case's algorithm, so that applied to a cube with the first two layers
/// done it leaves the case's recognition pattern.
pub fn starter_oll_cases() -> (r: Vec<DrillCase>)
    ensures
        r@.len() == starter_oll_table().len(),
        forall|i: int| 0 <= i < r@.len() ==> oll_case_matches(#[trigger] r@[i], starter_oll_table()[i]),
{
    let mut v: Vec<DrillCase> = Vec::new();
    v.push(oll_case("oll-21-h", "OLL 21 (H)", "R U2 R' U' R U R' U' R U' R'"));
    v.push(oll_case("oll-22-pi", "OLL 22 (Pi)", "R U2 R2 U' R2 U' R2 U2 R"));
    v.push(oll_case("oll-27-sune", "OLL 27 (Sune)", "R U R' U R U2 R'"));
    v.push(oll_case("oll-26-anti-sune", "OLL 26 (Anti-Sune)", "R U2 R' U' R U' R'"));
    v.push(oll_case("oll-23-h-cross", "OLL 23 (H-cross)", "R2 D R' U2 R D' R' U2 R'"));
    v
}

fn copy_moves(ms: &MoveSeq) -> (r: MoveSeq)
    ensures
        r.0@ == ms.0@,
{
    let mut out = MoveSeq::new();
    out.extend(ms.as_slice());
    proof {
        assert(Seq::<Move>::empty() + ms.0@ =~= ms.0@);
    }
    out
}

/// Start a drill on `case`: reset the cube to solved with empty stacks,
/// queue the case's setup moves, and start inspection against the setup.
/// Returns the setup.
pub fn start_drill(case: &DrillCase, cube_state: &mut CubeState, pending: &mut PendingMoves, timer: &mut TimerState) -> (r:
    MoveSeq)
    requires
        2 <= old(cube_state).cube.size <= 5,
    ensures
        r.0@ == case.setup.0@,
        final(cube_state).cube.size == old(cube_state).cube.size,
        final(cube_state).cube.wf(),
        final(cube_state).cube.cubies@ == crate::cube::visible_spec(old(cube_state).cube.size as int).map_values(
            |p: crate::vec3::IVec3| crate::cube::solved_cubie(p),
        ),
        final(cube_state).history@.len() == 0,
        final(cube_state).redo_stack@.len() == 0,
        final(pending).0@ == case.setup.0@,
        final(timer).phase == TimerPhase::Inspecting,
        final(timer).elapsed_ns == 0,
        final(timer).inspection_remaining_ns == WCA_INSPECTION_NS,
        final(timer).active_scramble.0@ == case.setup.0@,
{
    let size = cube_state.cube.size;
    match crate::cube::Cube::solved(size) {
        Ok(c) => {
            cube_state.cube = c;
        },
        Err(_) => {
            proof {
                assert(false);
            }
        },
    }
    cube_state.reset_history();
    pending.clear();
    pending.enqueue_all(case.setup.as_slice());
    proof {
        assert(Seq::<Move>::empty() + case.setup.0@ =~= case.setup.0@);
    }
    timer.begin_inspection(copy_moves(&case.setup));
    copy_moves(&case.setup)
}

/// The drill mode that follows `current` when cycling modes: speed-solve,
/// then OLL, then PLL, then back to speed-solve (other modes go back to
/// speed-solve too).
pub fn next_drill_mode(current: DrillMode) -> (r: DrillMode)
    ensures
        r == (match current {
            DrillMode::SpeedSolve => DrillMode::Oll,
            DrillMode::Oll => DrillMode::Pll,
            _ => DrillMode::SpeedSolve,
        }),
{
    match current {
        DrillMode::SpeedSolve => DrillMode::Oll,
        DrillMode::Oll => DrillMode::Pll,
        _ => DrillMode::SpeedSolve,
    }
}

} // verus!
