//! Coordinate encodings for the two-phase algorithm.
//!
//! Phase 1 (`G0 -> G1`): corner orientation `co` in `0..3^7`, edge
//! orientation `eo` in `0..2^11`, and `udslice` in `0..C(12, 4)` — which 4
//! of the 12 edge slots hold middle-slice edges.
//!
//! Phase 2 (`G1 -> solved`): corner permutation `cp` in `0..8!`, U/D-layer
//! edge permutation `ep` in `0..8!`, and the permutation of the middle-slice
//! edges `udslice_perm` in `0..4!`.

use vstd::prelude::*;
use crate::rank::{
    digit_rank, digits_from, digits_of, digits_rank, factorial, falling, fact, identity_pool,
    lex_rank, lex_unrank, perm_rank, pow, unrank,
};
use crate::three::state::{CornerState, EdgeState, E_SLICE_FIRST, iota, zero_seq};
use crate::two::digit_sum;

verus! {

pub const N_CO: usize = 2187;
pub const N_EO: usize = 2048;
pub const N_UDSLICE: usize = 495;
pub const N_CP: usize = 40320;
pub const N_EP: usize = 40320;
pub const N_UDSLICE_PERM: usize = 24;

// ---- Corner orientation ----

/// The first seven twists in base 3; the eighth follows from the sum.
pub fn encode_co(c: &CornerState) -> (r: u32)
    ensures
        r == digits_rank(c.orient@, 3, 7),
        (forall|i: int| 0 <= i < 7 ==> c.orient@[i] < 3) ==> r < N_CO,
{
    proof {
        assert(pow(3, 7) == 2187) by {
            reveal_with_fuel(pow, 8);
        }
    }
    digit_rank(&c.orient, 3, 7)
}

/// Twists with coordinate `coord`; the last one makes the sum a multiple of 3.
pub open spec fn decode_co_orient(coord: int) -> Seq<u8> {
    let d = digits_of(coord, 3, 7);
    d.push(((3 - digit_sum(d, 7) % 3) % 3) as u8)
}

fn sum_digits(d: &Vec<u8>, k: usize, bound: u8) -> (r: u32)
    requires
        k <= d@.len(),
        k <= 11,
        forall|i: int| 0 <= i < k ==> d@[i] < bound,
    ensures
        r == digit_sum(d@, k as int),
{
    let mut sum: u32 = 0;
    let mut i: usize = 0;
    while i < k
        invariant
            k <= d@.len(),
            k <= 11,
            forall|i: int| 0 <= i < k ==> d@[i] < bound,
            i <= k,
            sum == digit_sum(d@, i as int),
            sum <= 255 * i,
        decreases k - i,
    {
        sum = sum + d[i] as u32;
        i = i + 1;
    }
    sum
}

pub fn decode_co(coord: u32) -> (r: CornerState)
    ensures
        r.perm@ == iota(8),
        r.orient@ == decode_co_orient(coord as int),
{
    let d = digits_from(coord, 3, 7);
    let sum = sum_digits(&d, 7, 3);
    let last = ((3 - (sum % 3)) % 3) as u8;
    let orient = [d[0], d[1], d[2], d[3], d[4], d[5], d[6], last];
    let r = CornerState { perm: [0, 1, 2, 3, 4, 5, 6, 7], orient };
    proof {
        assert(r.perm@ =~= iota(8));
        assert(orient@ =~= d@.push(last));
    }
    r
}

// ---- Edge orientation ----

/// The first eleven flips in base 2; the twelfth follows from the sum.
pub fn encode_eo(e: &EdgeState) -> (r: u32)
    ensures
        r == digits_rank(e.orient@, 2, 11),
        (forall|i: int| 0 <= i < 11 ==> e.orient@[i] < 2) ==> r < N_EO,
{
    proof {
        assert(pow(2, 11) == 2048) by {
            reveal_with_fuel(pow, 12);
        }
    }
    digit_rank(&e.orient, 2, 11)
}

pub open spec fn decode_eo_orient(coord: int) -> Seq<u8> {
    let d = digits_of(coord, 2, 11);
    d.push((digit_sum(d, 11) % 2) as u8)
}

pub fn decode_eo(coord: u32) -> (r: EdgeState)
    ensures
        r.perm@ == iota(12),
        r.orient@ == decode_eo_orient(coord as int),
        r.rot@ == zero_seq(12),
{
    let d = digits_from(coord, 2, 11);
    let sum = sum_digits(&d, 11, 2);
    let last = (sum % 2) as u8;
    let orient = [d[0], d[1], d[2], d[3], d[4], d[5], d[6], d[7], d[8], d[9], d[10], last];
    let r = EdgeState { perm: [0, 1, 2, 3, 4, 5, 6, 7, 8, 9, 10, 11], orient, rot: [0; 12] };
    proof {
        assert(r.perm@ =~= iota(12));
        assert(r.rot@ =~= zero_seq(12));
        assert(orient@ =~= d@.push(last));
    }
    r
}

/// Reading a corner-orientation coordinate back gives it again.
pub proof fn lemma_co_round_trip(coord: int)
    requires
        0 <= coord < N_CO,
    ensures
        digits_rank(decode_co_orient(coord), 3, 7) == coord,
{
    assert(pow(3, 7) == 2187) by {
        reveal_with_fuel(pow, 8);
    }
    crate::rank::lemma_digits_round_trip(coord, 3, 7);
    let d = digits_of(coord, 3, 7);
    crate::rank::lemma_digits_rank_push(d, ((3 - digit_sum(d, 7) % 3) % 3) as u8, 3, 7);
}

/// Reading an edge-orientation coordinate back gives it again.
pub proof fn lemma_eo_round_trip(coord: int)
    requires
        0 <= coord < N_EO,
    ensures
        digits_rank(decode_eo_orient(coord), 2, 11) == coord,
{
    assert(pow(2, 11) == 2048) by {
        reveal_with_fuel(pow, 12);
    }
    crate::rank::lemma_digits_round_trip(coord, 2, 11);
    let d = digits_of(coord, 2, 11);
    crate::rank::lemma_digits_rank_push(d, (digit_sum(d, 11) % 2) as u8, 2, 11);
}

// ---- Binomial coefficients ----

/// `C(n, k)`, computed as `n (n-1) ... (n-k'+1) / k'!` with
/// `k' = min(k, n - k)`, and 0 when `k > n`.
pub open spec fn binom(n: int, k: int) -> int {
    if k > n {
        0
    } else {
        let kk = if k > n - k {
            n - k
        } else {
            k
        };
        falling(n, kk) / factorial(kk)
    }
}

proof fn lemma_falling_grows(n: int, i: int)
    requires
        0 <= i <= n,
        n <= 12,
    ensures
        1 <= falling(n, i) <= pow(12, i),
        i < n ==> falling(n, i + 1) == falling(n, i) * (n - i),
    decreases i,
{
    if i > 0 {
        lemma_falling_grows(n, i - 1);
        let a = falling(n, i - 1);
        assert(1 <= a * (n - (i - 1)) <= pow(12, i - 1) * 12) by (nonlinear_arith)
            requires
                1 <= a <= pow(12, i - 1),
                1 <= n - (i - 1) <= 12,
        ;
    }
}

/// `C(n, k)` for `n <= 12`.
pub fn binomial(n: u32, k: u32) -> (r: u32)
    requires
        n <= 12,
    ensures
        r == binom(n as int, k as int),
{
    if k > n {
        return 0;
    }
    let kk = if k > n - k {
        n - k
    } else {
        k
    };
    let mut num: u64 = 1;
    let mut den: u64 = 1;
    let mut i: u32 = 0;
    proof {
        assert(pow(12, 6) == 2985984) by {
            reveal_with_fuel(pow, 7);
        }
    }
    while i < kk
        invariant
            n <= 12,
            kk <= n,
            kk <= 6,
            i <= kk,
            num == falling(n as int, i as int),
            den == factorial(i as int),
            pow(12, 6) == 2985984,
        decreases kk - i,
    {
        proof {
            lemma_falling_grows(n as int, i as int);
            lemma_falling_grows(n as int, i + 1);
            crate::rank::lemma_pow_mono(12, i + 1, 6);
            crate::rank::lemma_pow_mono(12, i as int, 6);
            crate::rank::lemma_factorial_positive(i as int);
            crate::rank::lemma_small_factorials();
            assert(factorial(i + 1) == (i + 1) * factorial(i as int));
            assert(den * (i + 1) == factorial(i + 1)) by (nonlinear_arith)
                requires
                    den == factorial(i as int),
                    factorial(i + 1) == (i + 1) * factorial(i as int),
            ;
            assert(factorial(i + 1) <= 40320);
        }
        num = num * (n - i) as u64;
        den = den * (i + 1) as u64;
        i = i + 1;
    }
    proof {
        crate::rank::lemma_factorial_positive(kk as int);
        lemma_falling_grows(n as int, kk as int);
        crate::rank::lemma_pow_mono(12, kk as int, 6);
        assert(num / den <= num) by (nonlinear_arith)
            requires
                den >= 1,
                num >= 0,
        ;
    }
    (num / den) as u32
}

// ---- Middle-slice positions ----

/// `sum_{v = from}^{to - 1} C(11 - v, 3 - found)`: the combinations skipped
/// when the next middle-slice slot after `from` is `to`.
pub open spec fn gap_sum(from: int, to: int, found: int) -> int
    decreases to - from,
{
    if to <= from {
        0
    } else {
        gap_sum(from, to - 1, found) + binom(11 - (to - 1), 3 - found)
    }
}

/// Lexicographic rank accumulated over the first `s` slots of a slot mask:
/// `(rank, next free slot, middle-slice slots seen)`; the scan stops after
/// the fourth.
pub open spec fn mask_scan(m: Seq<bool>, s: int) -> (int, int, int)
    decreases s,
{
    if s <= 0 {
        (0, 0, 0)
    } else {
        let (r, p, f) = mask_scan(m, s - 1);
        if f == 4 || !m[s - 1] {
            (r, p, f)
        } else {
            (r + gap_sum(p, s - 1, f), s, f + 1)
        }
    }
}

/// Lexicographic rank of the set of middle-slice slots of a mask.
pub open spec fn mask_rank(m: Seq<bool>) -> int {
    mask_scan(m, 12).0
}

proof fn lemma_binom_small(n: int, k: int)
    requires
        0 <= n <= 11,
        0 <= k <= 3,
    ensures
        0 <= binom(n, k) <= 8000,
{
    if k <= n {
        let kk = if k > n - k {
            n - k
        } else {
            k
        };
        crate::rank::lemma_factorial_positive(kk);
        lemma_falling_grows(n, kk);
        crate::rank::lemma_pow_mono(12, kk, 3);
        assert(pow(12, 3) == 1728) by {
            reveal_with_fuel(pow, 4);
        }
        let f = falling(n, kk);
        let d = factorial(kk);
        assert(0 <= f / d <= f) by (nonlinear_arith)
            requires
                d >= 1,
                f >= 1,
        ;
    }
}

pub fn udslice_from_mask(is_eslice: &[bool; 12]) -> (r: u32)
    ensures
        r == mask_rank(is_eslice@),
{
    let mut rank: u32 = 0;
    let mut prev: usize = 0;
    let mut found: u32 = 0;
    let mut slot: usize = 0;
    while slot < 12
        invariant
            slot <= 12,
            (rank as int, prev as int, found as int) == mask_scan(is_eslice@, slot as int),
            prev <= slot,
            found <= 4,
            rank <= 8000 * prev,
        decreases 12 - slot,
    {
        if found < 4 && is_eslice[slot] {
            let mut v: usize = prev;
            let ghost r0 = rank;
            while v < slot
                invariant
                    prev <= v <= slot,
                    slot < 12,
                    found < 4,
                    rank == r0 + gap_sum(prev as int, v as int, found as int),
                    rank <= 8000 * v,
                decreases slot - v,
            {
                proof {
                    lemma_binom_small(11 - v, 3 - found);
                }
                let pool = (12 - v - 1) as u32;
                let remaining = 4 - found - 1;
                rank = rank + binomial(pool, remaining);
                v = v + 1;
            }
            prev = slot + 1;
            found = found + 1;
        }
        slot = slot + 1;
    }
    rank
}

/// `binoms[n * 4 + k]` holds `C(n, k)` for `n < 12` and `k < 4`.
pub open spec fn binoms_ok(binoms: Seq<u32>) -> bool {
    &&& binoms.len() == 48
    &&& forall|n: int, k: int| 0 <= n < 12 && 0 <= k < 4 ==> #[trigger] binoms[n * 4 + k] == binom(n, k)
}

/// The binomial coefficients [`udslice_rank_with`] reads.
pub(crate) fn small_binomials() -> (r: Vec<u32>)
    ensures
        binoms_ok(r@),
{
    let mut t: Vec<u32> = Vec::new();
    let mut n: u32 = 0;
    while n < 12
        invariant
            n <= 12,
            t@.len() == n * 4,
            forall|x: int, k: int| 0 <= x < n && 0 <= k < 4 ==> #[trigger] t@[x * 4 + k] == binom(x, k),
        decreases 12 - n,
    {
        let mut k: u32 = 0;
        while k < 4
            invariant
                n < 12,
                k <= 4,
                t@.len() == n * 4 + k,
                forall|x: int, j: int| 0 <= x < n && 0 <= j < 4 ==> #[trigger] t@[x * 4 + j] == binom(x, j),
                forall|j: int| 0 <= j < k ==> #[trigger] t@[n * 4 + j] == binom(n as int, j),
            decreases 4 - k,
        {
            t.push(binomial(n, k));
            k = k + 1;
        }
        n = n + 1;
    }
    t
}

/// [`udslice_from_mask`] with the binomial coefficients looked up.
pub(crate) fn udslice_rank_with(is_eslice: &[bool; 12], binoms: &Vec<u32>) -> (r: u32)
    requires
        binoms_ok(binoms@),
    ensures
        r == mask_rank(is_eslice@),
{
    let mut rank: u32 = 0;
    let mut prev: usize = 0;
    let mut found: u32 = 0;
    let mut slot: usize = 0;
    while slot < 12
        invariant
            binoms_ok(binoms@),
            slot <= 12,
            (rank as int, prev as int, found as int) == mask_scan(is_eslice@, slot as int),
            prev <= slot,
            found <= 4,
            rank <= 8000 * prev,
        decreases 12 - slot,
    {
        if found < 4 && is_eslice[slot] {
            let mut v: usize = prev;
            let ghost r0 = rank;
            while v < slot
                invariant
                    binoms_ok(binoms@),
                    prev <= v <= slot,
                    slot < 12,
                    found < 4,
                    rank == r0 + gap_sum(prev as int, v as int, found as int),
                    rank <= 8000 * v,
                decreases slot - v,
            {
                proof {
                    lemma_binom_small(11 - v, 3 - found);
                }
                let pool = 12 - v - 1;
                let remaining = (4 - found - 1) as usize;
                rank = rank + binoms[pool * 4 + remaining];
                v = v + 1;
            }
            prev = slot + 1;
            found = found + 1;
        }
        slot = slot + 1;
    }
    rank
}

/// [`encode_udslice`] with the binomial coefficients looked up.
pub(crate) fn encode_udslice_with(e: &EdgeState, binoms: &Vec<u32>) -> (r: u32)
    requires
        binoms_ok(binoms@),
    ensures
        r == mask_rank(eslice_mask(*e)),
{
    let mut is_eslice = [false; 12];
    let mut slot: usize = 0;
    while slot < 12
        invariant
            slot <= 12,
            forall|i: int| 0 <= i < slot ==> is_eslice@[i] == (e.perm@[i] >= 8),
            forall|i: int| slot <= i < 12 ==> !is_eslice@[i],
        decreases 12 - slot,
    {
        if e.perm[slot] as usize >= E_SLICE_FIRST {
            is_eslice[slot] = true;
        }
        slot = slot + 1;
    }
    proof {
        assert(is_eslice@ =~= eslice_mask(*e));
    }
    udslice_rank_with(&is_eslice, binoms)
}

/// First slot `v`, from `v` on, where rank `rem` falls among the
/// combinations whose next middle-slice slot is `v`; with the rank left.
pub open spec fn place(rem: int, v: int, found: int) -> Option<(int, int)>
    decreases 12 - v,
{
    if v < 0 || v >= 12 {
        None
    } else if rem < binom(11 - v, 3 - found) {
        Some((v, rem))
    } else {
        place(rem - binom(11 - v, 3 - found), v + 1, found)
    }
}

/// Middle-slice slots of the combination with rank `rem`, choosing from
/// slot `prev` on with `found` slots already chosen.
pub open spec fn decode_slots(rem: int, prev: int, found: int) -> Seq<int>
    decreases 4 - found,
{
    if found < 0 || found >= 4 {
        Seq::empty()
    } else {
        match place(rem, prev, found) {
            None => Seq::empty(),
            Some((v, r2)) => seq![v] + decode_slots(r2, v + 1, found + 1),
        }
    }
}

/// Slot mask of the combination with rank `coord`.
pub open spec fn decode_mask(coord: int) -> Seq<bool> {
    Seq::new(12, |i: int| decode_slots(coord, 0, 0).contains(i))
}

fn place_next(rem: u32, from: usize, found: u32) -> (r: Option<(usize, u32)>)
    requires
        found < 4,
        from <= 12,
    ensures
        match place(rem as int, from as int, found as int) {
            Some((v, r2)) => r == Some((v as usize, r2 as u32)) && from <= v < 12 && 0 <= r2 <= rem,
            None => r is None,
        },
{
    let mut v: usize = from;
    let mut rest = rem;
    while v < 12
        invariant
            found < 4,
            from <= v <= 12,
            rest <= rem,
            place(rem as int, from as int, found as int) == place(rest as int, v as int, found as int),
        decreases 12 - v,
    {
        let skip = binomial((11 - v) as u32, 3 - found);
        if rest < skip {
            return Some((v, rest));
        }
        rest = rest - skip;
        v = v + 1;
    }
    None
}

/// Decode a `udslice` coordinate to the mask of middle-slice slots.
pub fn decode_udslice_mask(coord: u32) -> (r: [bool; 12])
    ensures
        r@ == decode_mask(coord as int),
{
    let ghost whole = decode_slots(coord as int, 0, 0);
    let ghost mut chosen: Seq<int> = Seq::empty();
    let mut mask = [false; 12];
    let mut rem = coord;
    let mut found: u32 = 0;
    let mut prev: usize = 0;
    let mut done = false;
    while !done && found < 4 && prev < 12
        invariant
            found <= 4,
            prev <= 12,
            whole == decode_slots(coord as int, 0, 0),
            done ==> decode_slots(rem as int, prev as int, found as int) == Seq::<int>::empty(),
            whole == chosen + decode_slots(rem as int, prev as int, found as int),
            forall|i: int| 0 <= i < 12 ==> mask@[i] == chosen.contains(i),
            forall|k: int| 0 <= k < chosen.len() ==> chosen[k] < prev,
            prev == 12 ==> decode_slots(rem as int, prev as int, found as int) == Seq::<int>::empty(),
        decreases 12 - prev + (if done { 0int } else { 1int }),
    {
        match place_next(rem, prev, found) {
            None => {
                done = true;
            },
            Some((v, r2)) => {
                proof {
                    assert(decode_slots(rem as int, prev as int, found as int) == seq![v as int]
                        + decode_slots(r2 as int, v + 1, found + 1));
                    assert(chosen + (seq![v as int] + decode_slots(r2 as int, v + 1, found + 1))
                        =~= chosen.push(v as int) + decode_slots(r2 as int, v + 1, found + 1));
                    let old_chosen = chosen;
                    chosen = chosen.push(v as int);
                    assert forall|i: int| 0 <= i < 12 && i != v implies chosen.contains(i) == old_chosen.contains(i) by {
                        if chosen.contains(i) {
                            let k = choose|k: int| 0 <= k < chosen.len() && chosen[k] == i;
                            assert(k < old_chosen.len());
                            assert(old_chosen[k] == i);
                        }
                        if old_chosen.contains(i) {
                            let k = choose|k: int| 0 <= k < old_chosen.len() && old_chosen[k] == i;
                            assert(chosen[k] == i);
                        }
                    }
                    assert(chosen[chosen.len() - 1] == v);
                }
                mask[v] = true;
                prev = v + 1;
                rem = r2;
                found = found + 1;
                proof {
                    assert forall|i: int| 0 <= i < 12 implies mask@[i] == chosen.contains(i) by {
                        if i == v {
                            assert(chosen[chosen.len() - 1] == i);
                        }
                    }
                    if prev == 12 {
                        assert(place(rem as int, 12, found as int) is None);
                    }
                }
            },
        }
    }
    proof {
        assert(decode_slots(rem as int, prev as int, found as int) == Seq::<int>::empty());
        assert(whole =~= chosen);
        assert(mask@ =~= decode_mask(coord as int));
    }
    mask
}

/// Mask of the slots holding a middle-slice edge.
pub open spec fn eslice_mask(e: EdgeState) -> Seq<bool> {
    Seq::new(12, |slot: int| e.perm@[slot] >= 8)
}

/// Lexicographic rank of the slots holding middle-slice edges: all in
/// slots `0..4` ranks 0, all in slots `8..12` ranks `N_UDSLICE - 1`.
pub fn encode_udslice(e: &EdgeState) -> (r: u32)
    ensures
        r == mask_rank(eslice_mask(*e)),
{
    let mut is_eslice = [false; 12];
    let mut slot: usize = 0;
    while slot < 12
        invariant
            slot <= 12,
            forall|i: int| 0 <= i < slot ==> is_eslice@[i] == (e.perm@[i] >= 8),
            forall|i: int| slot <= i < 12 ==> !is_eslice@[i],
        decreases 12 - slot,
    {
        if e.perm[slot] as usize >= E_SLICE_FIRST {
            is_eslice[slot] = true;
        }
        slot = slot + 1;
    }
    proof {
        assert(is_eslice@ =~= eslice_mask(*e));
    }
    udslice_from_mask(&is_eslice)
}

/// Permutation filling the middle-slice slots of `mask` with edges
/// `8, 9, 10, 11` and the other slots with `0..8`, each in slot order.
pub open spec fn fill_from_mask(mask: Seq<bool>, k: int) -> (Seq<u8>, int, int)
    decreases k,
{
    if k <= 0 {
        (Seq::empty(), 0, 8)
    } else {
        let (p, ud, es) = fill_from_mask(mask, k - 1);
        if mask[k - 1] {
            (p.push(es as u8), ud, es + 1)
        } else {
            (p.push(ud as u8), ud + 1, es)
        }
    }
}

proof fn lemma_fill_counts(mask: Seq<bool>, k: int)
    requires
        0 <= k <= mask.len(),
    ensures
        fill_from_mask(mask, k).0.len() == k,
        fill_from_mask(mask, k).1 + fill_from_mask(mask, k).2 - 8 == k,
        fill_from_mask(mask, k).1 >= 0,
        fill_from_mask(mask, k).2 >= 8,
    decreases k,
{
    if k > 0 {
        lemma_fill_counts(mask, k - 1);
    }
}

/// An edge state with the middle-slice edges in the slots of `coord`,
/// identity orientation, and the other edges in their order.
pub fn decode_udslice(coord: u32) -> (r: EdgeState)
    requires
        coord < N_UDSLICE,
    ensures
        r.perm@ == fill_from_mask(decode_mask(coord as int), 12).0,
        r.orient@ == zero_seq(12),
        r.rot@ == zero_seq(12),
{
    proof {
        lemma_udslice_round_trip(coord as int);
    }
    let mask = decode_udslice_mask(coord);
    let mut perm = [0u8; 12];
    let mut ud: u8 = 0;
    let mut es: u8 = 8;
    let mut slot: usize = 0;
    while slot < 12
        invariant
            slot <= 12,
            mask@ == decode_mask(coord as int),
            ud as int == fill_from_mask(mask@, slot as int).1,
            es as int == fill_from_mask(mask@, slot as int).2,
            ud <= slot,
            es <= 8 + slot,
            forall|i: int| 0 <= i < slot ==> perm@[i] == fill_from_mask(mask@, slot as int).0[i],
            fill_from_mask(mask@, slot as int).0.len() == slot,
        decreases 12 - slot,
    {
        proof {
            lemma_fill_counts(mask@, slot as int);
        }
        if mask[slot] {
            perm[slot] = es;
            es = es + 1;
        } else {
            perm[slot] = ud;
            ud = ud + 1;
        }
        slot = slot + 1;
    }
    proof {
        assert(perm@ =~= fill_from_mask(mask@, 12).0);
    }
    let r = EdgeState { perm, orient: [0; 12], rot: [0; 12] };
    proof {
        assert(r.orient@ =~= zero_seq(12));
        assert(r.rot@ =~= zero_seq(12));
    }
    r
}

/// Number of set entries among the first `k` of a mask.
pub open spec fn count_true(m: Seq<bool>, k: int) -> int
    decreases k,
{
    if k <= 0 {
        0
    } else {
        count_true(m, k - 1) + if m[k - 1] {
            1int
        } else {
            0int
        }
    }
}

// ---- Phase 2 permutations ----

pub fn encode_cp(c: &CornerState) -> (r: u32)
    ensures
        r == perm_rank(c.perm@, 8, 8),
        r < N_CP,
{
    proof {
        crate::rank::lemma_small_factorials();
    }
    lex_rank(&c.perm)
}

pub fn decode_cp(coord: u32) -> (r: CornerState)
    requires
        coord < N_CP,
    ensures
        r.perm@ == unrank(coord as int, identity_pool(8)),
        r.orient@ == zero_seq(8),
        crate::rank::is_perm_of(r.perm@, identity_pool(8)),
{
    proof {
        crate::rank::lemma_small_factorials();
        assert(identity_pool(8).no_duplicates());
        crate::rank::lemma_unrank_is_perm(coord as int, identity_pool(8));
    }
    let p = lex_unrank(coord, 8);
    let perm = [p[0], p[1], p[2], p[3], p[4], p[5], p[6], p[7]];
    let r = CornerState { perm, orient: [0; 8] };
    proof {
        assert(perm@ =~= p@);
        assert(r.orient@ =~= zero_seq(8));
    }
    r
}

/// Lehmer rank of the U/D-layer part `perm[0..8]` of the edges.
pub fn encode_ep(e: &EdgeState) -> (r: u32)
    ensures
        r == perm_rank(e.perm@.take(8), 8, 8),
        r < N_EP,
{
    proof {
        crate::rank::lemma_small_factorials();
    }
    let p = [e.perm[0], e.perm[1], e.perm[2], e.perm[3], e.perm[4], e.perm[5], e.perm[6], e.perm[7]];
    proof {
        assert(p@ =~= e.perm@.take(8));
    }
    lex_rank(&p)
}

pub fn decode_ep(coord: u32) -> (r: EdgeState)
    requires
        coord < N_EP,
    ensures
        r.perm@ == unrank(coord as int, identity_pool(8)) + seq![8u8, 9u8, 10u8, 11u8],
        r.orient@ == zero_seq(12),
        r.rot@ == zero_seq(12),
{
    proof {
        crate::rank::lemma_small_factorials();
    }
    let p = lex_unrank(coord, 8);
    let perm = [p[0], p[1], p[2], p[3], p[4], p[5], p[6], p[7], 8, 9, 10, 11];
    let r = EdgeState { perm, orient: [0; 12], rot: [0; 12] };
    proof {
        assert(perm@ =~= p@ + seq![8u8, 9u8, 10u8, 11u8]);
        assert(r.orient@ =~= zero_seq(12));
        assert(r.rot@ =~= zero_seq(12));
    }
    r
}

/// Middle-slice edges, shifted to `0..4`.
pub open spec fn slice_part(e: EdgeState) -> Seq<u8> {
    Seq::new(4, |i: int| (e.perm@[8 + i] - 8) as u8)
}

/// Lehmer rank of the permutation of the middle-slice edges in slots `8..12`.
pub fn encode_udslice_perm(e: &EdgeState) -> (r: u32)
    requires
        forall|i: int| 8 <= i < 12 ==> e.perm@[i] >= 8,
    ensures
        r == perm_rank(slice_part(*e), 4, 4),
        r < N_UDSLICE_PERM,
{
    proof {
        crate::rank::lemma_small_factorials();
    }
    let p = [e.perm[8] - 8, e.perm[9] - 8, e.perm[10] - 8, e.perm[11] - 8];
    proof {
        assert(p@ =~= slice_part(*e));
    }
    lex_rank(&p)
}

pub fn decode_udslice_perm(coord: u32) -> (r: EdgeState)
    requires
        coord < N_UDSLICE_PERM,
    ensures
        r.perm@ == iota(8) + unrank(coord as int, identity_pool(4)).map_values(|x: u8| (x + 8) as u8),
        r.orient@ == zero_seq(12),
        r.rot@ == zero_seq(12),
{
    proof {
        crate::rank::lemma_small_factorials();
    }
    let p = lex_unrank(coord, 4);
    proof {
        crate::rank::lemma_unrank_values(coord as int, identity_pool(4));
    }
    let perm = [0, 1, 2, 3, 4, 5, 6, 7, p[0] + 8, p[1] + 8, p[2] + 8, p[3] + 8];
    let r = EdgeState { perm, orient: [0; 12], rot: [0; 12] };
    proof {
        assert(perm@ =~= iota(8) + p@.map_values(|x: u8| (x + 8) as u8));
        assert(r.orient@ =~= zero_seq(12));
        assert(r.rot@ =~= zero_seq(12));
    }
    r
}

/// Reading a corner-permutation coordinate back gives it again.
pub proof fn lemma_cp_round_trip(coord: int)
    requires
        0 <= coord < N_CP,
    ensures
        perm_rank(unrank(coord, identity_pool(8)), 8, 8) == coord,
{
    crate::rank::lemma_small_factorials();
    crate::rank::lemma_rank_unrank(coord, 8);
}

/// Reading an edge-permutation coordinate back gives it again: the
/// decoded U/D-layer edges rank as the coordinate.
pub proof fn lemma_ep_round_trip(coord: int)
    requires
        0 <= coord < N_EP,
    ensures
        perm_rank((unrank(coord, identity_pool(8)) + seq![8u8, 9u8, 10u8, 11u8]).take(8), 8, 8) == coord,
{
    crate::rank::lemma_small_factorials();
    crate::rank::lemma_rank_unrank(coord, 8);
    crate::rank::lemma_unrank_len(coord, identity_pool(8));
    assert((unrank(coord, identity_pool(8)) + seq![8u8, 9u8, 10u8, 11u8]).take(8) =~= unrank(
        coord,
        identity_pool(8),
    ));
}

/// Reading a middle-slice permutation coordinate back gives it again.
pub proof fn lemma_udslice_perm_round_trip(coord: int, e: EdgeState)
    requires
        0 <= coord < N_UDSLICE_PERM,
        e.perm@ == iota(8) + unrank(coord, identity_pool(4)).map_values(|x: u8| (x + 8) as u8),
    ensures
        perm_rank(slice_part(e), 4, 4) == coord,
{
    let u = unrank(coord, identity_pool(4));
    crate::rank::lemma_small_factorials();
    crate::rank::lemma_rank_unrank(coord, 4);
    crate::rank::lemma_unrank_len(coord, identity_pool(4));
    crate::rank::lemma_unrank_values(coord, identity_pool(4));
    assert forall|i: int| 0 <= i < 4 implies #[trigger] slice_part(e)[i] == u[i] by {
        assert(identity_pool(4).contains(u[i]));
        assert(u[i] < 4);
    }
    assert(slice_part(e) =~= u);
}

/// `C(n, k)` for `n <= 12`, `k <= 4`, as numbers.
#[verifier::rlimit(50)]
proof fn lemma_binom_values()
    ensures
        binom(0, 0) == 1,
        binom(0, 1) == 0,
        binom(0, 2) == 0,
        binom(0, 3) == 0,
        binom(0, 4) == 0,
        binom(1, 0) == 1,
        binom(1, 1) == 1,
        binom(1, 2) == 0,
        binom(1, 3) == 0,
        binom(1, 4) == 0,
        binom(2, 0) == 1,
        binom(2, 1) == 2,
        binom(2, 2) == 1,
        binom(2, 3) == 0,
        binom(2, 4) == 0,
        binom(3, 0) == 1,
        binom(3, 1) == 3,
        binom(3, 2) == 3,
        binom(3, 3) == 1,
        binom(3, 4) == 0,
        binom(4, 0) == 1,
        binom(4, 1) == 4,
        binom(4, 2) == 6,
        binom(4, 3) == 4,
        binom(4, 4) == 1,
        binom(5, 0) == 1,
        binom(5, 1) == 5,
        binom(5, 2) == 10,
        binom(5, 3) == 10,
        binom(5, 4) == 5,
        binom(6, 0) == 1,
        binom(6, 1) == 6,
        binom(6, 2) == 15,
        binom(6, 3) == 20,
        binom(6, 4) == 15,
        binom(7, 0) == 1,
        binom(7, 1) == 7,
        binom(7, 2) == 21,
        binom(7, 3) == 35,
        binom(7, 4) == 35,
        binom(8, 0) == 1,
        binom(8, 1) == 8,
        binom(8, 2) == 28,
        binom(8, 3) == 56,
        binom(8, 4) == 70,
        binom(9, 0) == 1,
        binom(9, 1) == 9,
        binom(9, 2) == 36,
        binom(9, 3) == 84,
        binom(9, 4) == 126,
        binom(10, 0) == 1,
        binom(10, 1) == 10,
        binom(10, 2) == 45,
        binom(10, 3) == 120,
        binom(10, 4) == 210,
        binom(11, 0) == 1,
        binom(11, 1) == 11,
        binom(11, 2) == 55,
        binom(11, 3) == 165,
        binom(11, 4) == 330,
        binom(12, 0) == 1,
        binom(12, 1) == 12,
        binom(12, 2) == 66,
        binom(12, 3) == 220,
        binom(12, 4) == 495,
{
    crate::rank::lemma_small_factorials();
    reveal_with_fuel(falling, 2);
    assert(factorial(0) == 1 && factorial(1) == 1 && factorial(2) == 2);
    assert(falling(0, 0) == 1);
    assert(falling(1, 0) == 1);
    assert(falling(1, 1) == 1);
    assert(falling(2, 0) == 1);
    assert(falling(2, 1) == 2);
    assert(falling(2, 2) == 2);
    assert(falling(3, 0) == 1);
    assert(falling(3, 1) == 3);
    assert(falling(3, 2) == 6);
    assert(falling(3, 3) == 6);
    assert(falling(4, 0) == 1);
    assert(falling(4, 1) == 4);
    assert(falling(4, 2) == 12);
    assert(falling(4, 3) == 24);
    assert(falling(4, 4) == 24);
    assert(falling(5, 0) == 1);
    assert(falling(5, 1) == 5);
    assert(falling(5, 2) == 20);
    assert(falling(5, 3) == 60);
    assert(falling(5, 4) == 120);
    assert(falling(6, 0) == 1);
    assert(falling(6, 1) == 6);
    assert(falling(6, 2) == 30);
    assert(falling(6, 3) == 120);
    assert(falling(6, 4) == 360);
    assert(falling(7, 0) == 1);
    assert(falling(7, 1) == 7);
    assert(falling(7, 2) == 42);
    assert(falling(7, 3) == 210);
    assert(falling(7, 4) == 840);
    assert(falling(8, 0) == 1);
    assert(falling(8, 1) == 8);
    assert(falling(8, 2) == 56);
    assert(falling(8, 3) == 336);
    assert(falling(8, 4) == 1680);
    assert(falling(9, 0) == 1);
    assert(falling(9, 1) == 9);
    assert(falling(9, 2) == 72);
    assert(falling(9, 3) == 504);
    assert(falling(9, 4) == 3024);
    assert(falling(10, 0) == 1);
    assert(falling(10, 1) == 10);
    assert(falling(10, 2) == 90);
    assert(falling(10, 3) == 720);
    assert(falling(10, 4) == 5040);
    assert(falling(11, 0) == 1);
    assert(falling(11, 1) == 11);
    assert(falling(11, 2) == 110);
    assert(falling(11, 3) == 990);
    assert(falling(11, 4) == 7920);
    assert(falling(12, 0) == 1);
    assert(falling(12, 1) == 12);
    assert(falling(12, 2) == 132);
    assert(falling(12, 3) == 1320);
    assert(falling(12, 4) == 11880);
    assert(binom(0, 0) == 1int / 1int);
    assert(binom(1, 0) == 1int / 1int);
    assert(binom(1, 1) == 1int / 1int);
    assert(binom(2, 0) == 1int / 1int);
    assert(binom(2, 1) == 2int / 1int);
    assert(binom(2, 2) == 1int / 1int);
    assert(binom(3, 0) == 1int / 1int);
    assert(binom(3, 1) == 3int / 1int);
    assert(binom(3, 2) == 3int / 1int);
    assert(binom(3, 3) == 1int / 1int);
    assert(binom(4, 0) == 1int / 1int);
    assert(binom(4, 1) == 4int / 1int);
    assert(binom(4, 2) == 12int / 2int);
    assert(binom(4, 3) == 4int / 1int);
    assert(binom(4, 4) == 1int / 1int);
    assert(binom(5, 0) == 1int / 1int);
    assert(binom(5, 1) == 5int / 1int);
    assert(binom(5, 2) == 20int / 2int);
    assert(binom(5, 3) == 20int / 2int);
    assert(binom(5, 4) == 5int / 1int);
    assert(binom(6, 0) == 1int / 1int);
    assert(binom(6, 1) == 6int / 1int);
    assert(binom(6, 2) == 30int / 2int);
    assert(binom(6, 3) == 120int / 6int);
    assert(binom(6, 4) == 30int / 2int);
    assert(binom(7, 0) == 1int / 1int);
    assert(binom(7, 1) == 7int / 1int);
    assert(binom(7, 2) == 42int / 2int);
    assert(binom(7, 3) == 210int / 6int);
    assert(binom(7, 4) == 210int / 6int);
    assert(binom(8, 0) == 1int / 1int);
    assert(binom(8, 1) == 8int / 1int);
    assert(binom(8, 2) == 56int / 2int);
    assert(binom(8, 3) == 336int / 6int);
    assert(binom(8, 4) == 1680int / 24int);
    assert(binom(9, 0) == 1int / 1int);
    assert(binom(9, 1) == 9int / 1int);
    assert(binom(9, 2) == 72int / 2int);
    assert(binom(9, 3) == 504int / 6int);
    assert(binom(9, 4) == 3024int / 24int);
    assert(binom(10, 0) == 1int / 1int);
    assert(binom(10, 1) == 10int / 1int);
    assert(binom(10, 2) == 90int / 2int);
    assert(binom(10, 3) == 720int / 6int);
    assert(binom(10, 4) == 5040int / 24int);
    assert(binom(11, 0) == 1int / 1int);
    assert(binom(11, 1) == 11int / 1int);
    assert(binom(11, 2) == 110int / 2int);
    assert(binom(11, 3) == 990int / 6int);
    assert(binom(11, 4) == 7920int / 24int);
    assert(binom(12, 0) == 1int / 1int);
    assert(binom(12, 1) == 12int / 1int);
    assert(binom(12, 2) == 132int / 2int);
    assert(binom(12, 3) == 1320int / 6int);
    assert(binom(12, 4) == 11880int / 24int);
}

/// Pascal's rule, over the range the middle-slice coordinate uses.
proof fn lemma_pascal(n: int, k: int)
    requires
        1 <= n <= 12,
        1 <= k <= 4,
    ensures
        binom(n, k) == binom(n - 1, k - 1) + binom(n - 1, k),
{
    lemma_binom_values();
    if n == 1 {
        if k == 1 {
            assert(binom(1, 1) == binom(0, 0) + binom(0, 1));
        } else if k == 2 {
            assert(binom(1, 2) == binom(0, 1) + binom(0, 2));
        } else if k == 3 {
            assert(binom(1, 3) == binom(0, 2) + binom(0, 3));
        } else if k == 4 {
            assert(binom(1, 4) == binom(0, 3) + binom(0, 4));
        }
    } else if n == 2 {
        if k == 1 {
            assert(binom(2, 1) == binom(1, 0) + binom(1, 1));
        } else if k == 2 {
            assert(binom(2, 2) == binom(1, 1) + binom(1, 2));
        } else if k == 3 {
            assert(binom(2, 3) == binom(1, 2) + binom(1, 3));
        } else if k == 4 {
            assert(binom(2, 4) == binom(1, 3) + binom(1, 4));
        }
    } else if n == 3 {
        if k == 1 {
            assert(binom(3, 1) == binom(2, 0) + binom(2, 1));
        } else if k == 2 {
            assert(binom(3, 2) == binom(2, 1) + binom(2, 2));
        } else if k == 3 {
            assert(binom(3, 3) == binom(2, 2) + binom(2, 3));
        } else if k == 4 {
            assert(binom(3, 4) == binom(2, 3) + binom(2, 4));
        }
    } else if n == 4 {
        if k == 1 {
            assert(binom(4, 1) == binom(3, 0) + binom(3, 1));
        } else if k == 2 {
            assert(binom(4, 2) == binom(3, 1) + binom(3, 2));
        } else if k == 3 {
            assert(binom(4, 3) == binom(3, 2) + binom(3, 3));
        } else if k == 4 {
            assert(binom(4, 4) == binom(3, 3) + binom(3, 4));
        }
    } else if n == 5 {
        if k == 1 {
            assert(binom(5, 1) == binom(4, 0) + binom(4, 1));
        } else if k == 2 {
            assert(binom(5, 2) == binom(4, 1) + binom(4, 2));
        } else if k == 3 {
            assert(binom(5, 3) == binom(4, 2) + binom(4, 3));
        } else if k == 4 {
            assert(binom(5, 4) == binom(4, 3) + binom(4, 4));
        }
    } else if n == 6 {
        if k == 1 {
            assert(binom(6, 1) == binom(5, 0) + binom(5, 1));
        } else if k == 2 {
            assert(binom(6, 2) == binom(5, 1) + binom(5, 2));
        } else if k == 3 {
            assert(binom(6, 3) == binom(5, 2) + binom(5, 3));
        } else if k == 4 {
            assert(binom(6, 4) == binom(5, 3) + binom(5, 4));
        }
    } else if n == 7 {
        if k == 1 {
            assert(binom(7, 1) == binom(6, 0) + binom(6, 1));
        } else if k == 2 {
            assert(binom(7, 2) == binom(6, 1) + binom(6, 2));
        } else if k == 3 {
            assert(binom(7, 3) == binom(6, 2) + binom(6, 3));
        } else if k == 4 {
            assert(binom(7, 4) == binom(6, 3) + binom(6, 4));
        }
    } else if n == 8 {
        if k == 1 {
            assert(binom(8, 1) == binom(7, 0) + binom(7, 1));
        } else if k == 2 {
            assert(binom(8, 2) == binom(7, 1) + binom(7, 2));
        } else if k == 3 {
            assert(binom(8, 3) == binom(7, 2) + binom(7, 3));
        } else if k == 4 {
            assert(binom(8, 4) == binom(7, 3) + binom(7, 4));
        }
    } else if n == 9 {
        if k == 1 {
            assert(binom(9, 1) == binom(8, 0) + binom(8, 1));
        } else if k == 2 {
            assert(binom(9, 2) == binom(8, 1) + binom(8, 2));
        } else if k == 3 {
            assert(binom(9, 3) == binom(8, 2) + binom(8, 3));
        } else if k == 4 {
            assert(binom(9, 4) == binom(8, 3) + binom(8, 4));
        }
    } else if n == 10 {
        if k == 1 {
            assert(binom(10, 1) == binom(9, 0) + binom(9, 1));
        } else if k == 2 {
            assert(binom(10, 2) == binom(9, 1) + binom(9, 2));
        } else if k == 3 {
            assert(binom(10, 3) == binom(9, 2) + binom(9, 3));
        } else if k == 4 {
            assert(binom(10, 4) == binom(9, 3) + binom(9, 4));
        }
    } else if n == 11 {
        if k == 1 {
            assert(binom(11, 1) == binom(10, 0) + binom(10, 1));
        } else if k == 2 {
            assert(binom(11, 2) == binom(10, 1) + binom(10, 2));
        } else if k == 3 {
            assert(binom(11, 3) == binom(10, 2) + binom(10, 3));
        } else if k == 4 {
            assert(binom(11, 4) == binom(10, 3) + binom(10, 4));
        }
    } else if n == 12 {
        if k == 1 {
            assert(binom(12, 1) == binom(11, 0) + binom(11, 1));
        } else if k == 2 {
            assert(binom(12, 2) == binom(11, 1) + binom(11, 2));
        } else if k == 3 {
            assert(binom(12, 3) == binom(11, 2) + binom(11, 3));
        } else if k == 4 {
            assert(binom(12, 4) == binom(11, 3) + binom(11, 4));
        }
    }
}

proof fn lemma_gap_front(from: int, to: int, found: int)
    requires
        from < to,
    ensures
        gap_sum(from, to, found) == binom(11 - from, 3 - found) + gap_sum(from + 1, to, found),
    decreases to - from,
{
    reveal_with_fuel(gap_sum, 2);
    if to - 1 > from {
        lemma_gap_front(from, to - 1, found);
    }
}

/// With `rem` below the number of ways to place the remaining
/// `4 - found` middle-slice slots from `v` on, the next slot is found, and
/// `rem` splits into the combinations skipped and the rank left.
proof fn lemma_place(rem: int, v: int, found: int)
    requires
        0 <= found <= 3,
        0 <= v <= 12,
        0 <= rem < binom(12 - v, 4 - found),
    ensures
        place(rem, v, found) matches Some((w, r2)) && v <= w < 12 && rem == gap_sum(v, w, found) + r2 && 0 <= r2
            < binom(11 - w, 3 - found),
    decreases 12 - v,
{
    lemma_binom_values();
    if v < 12 {
        if rem >= binom(11 - v, 3 - found) {
            lemma_pascal(12 - v, 4 - found);
            lemma_place(rem - binom(11 - v, 3 - found), v + 1, found);
            let (w, r2) = place(rem - binom(11 - v, 3 - found), v + 1, found)->Some_0;
            lemma_gap_front(v, w, found);
        }
    }
}

/// The four middle-slice slots a coordinate below `N_UDSLICE` decodes to,
/// in increasing order, with the coordinate split into the combinations
/// skipped before each slot.
proof fn lemma_decode_slots(c: int) -> (vs: (int, int, int, int))
    requires
        0 <= c < N_UDSLICE,
    ensures
        0 <= vs.0 < vs.1 < vs.2 < vs.3 < 12,
        decode_slots(c, 0, 0) == seq![vs.0, vs.1, vs.2, vs.3],
        c == gap_sum(0, vs.0, 0) + gap_sum(vs.0 + 1, vs.1, 1) + gap_sum(vs.1 + 1, vs.2, 2) + gap_sum(
            vs.2 + 1,
            vs.3,
            3,
        ),
{
    lemma_binom_values();
    lemma_place(c, 0, 0);
    let (v0, r1) = place(c, 0, 0)->Some_0;
    lemma_place(r1, v0 + 1, 1);
    let (v1, r2) = place(r1, v0 + 1, 1)->Some_0;
    lemma_place(r2, v1 + 1, 2);
    let (v2, r3) = place(r2, v1 + 1, 2)->Some_0;
    lemma_place(r3, v2 + 1, 3);
    let (v3, r4) = place(r3, v2 + 1, 3)->Some_0;
    assert(r4 == 0);
    assert(decode_slots(r4, v3 + 1, 4) == Seq::<int>::empty());
    assert(decode_slots(r3, v2 + 1, 3) == seq![v3]);
    assert(decode_slots(r2, v1 + 1, 2) == seq![v2, v3]);
    assert(decode_slots(r1, v0 + 1, 1) == seq![v1, v2, v3]);
    assert(decode_slots(c, 0, 0) == seq![v0, v1, v2, v3]);
    (v0, v1, v2, v3)
}

/// Scanning a mask whose set slots are `v0 < v1 < v2 < v3`.
proof fn lemma_scan_four(m: Seq<bool>, v0: int, v1: int, v2: int, v3: int, s: int)
    requires
        0 <= v0 < v1 < v2 < v3 < 12,
        m.len() == 12,
        forall|i: int| 0 <= i < 12 ==> m[i] == (i == v0 || i == v1 || i == v2 || i == v3),
        0 <= s <= 12,
    ensures
        mask_scan(m, s) == (if s <= v0 {
            (0int, 0int, 0int)
        } else if s <= v1 {
            (gap_sum(0, v0, 0), v0 + 1, 1int)
        } else if s <= v2 {
            (gap_sum(0, v0, 0) + gap_sum(v0 + 1, v1, 1), v1 + 1, 2int)
        } else if s <= v3 {
            (gap_sum(0, v0, 0) + gap_sum(v0 + 1, v1, 1) + gap_sum(v1 + 1, v2, 2), v2 + 1, 3int)
        } else {
            (
                gap_sum(0, v0, 0) + gap_sum(v0 + 1, v1, 1) + gap_sum(v1 + 1, v2, 2) + gap_sum(v2 + 1, v3, 3),
                v3 + 1,
                4int,
            )
        }),
        count_true(m, s) == (if s <= v0 {
            0int
        } else if s <= v1 {
            1int
        } else if s <= v2 {
            2int
        } else if s <= v3 {
            3int
        } else {
            4int
        }),
    decreases s,
{
    if s > 0 {
        lemma_scan_four(m, v0, v1, v2, v3, s - 1);
    }
}

proof fn lemma_falses_grow(m: Seq<bool>, j: int, k: int)
    requires
        0 <= j <= k,
    ensures
        j - count_true(m, j) <= k - count_true(m, k),
        count_true(m, j) <= count_true(m, k),
    decreases k - j,
{
    if j < k {
        lemma_falses_grow(m, j, k - 1);
    }
}

/// Filling a mask with four set slots puts the middle-slice edges exactly
/// in the set slots.
proof fn lemma_fill_marks(mask: Seq<bool>, k: int)
    requires
        mask.len() == 12,
        count_true(mask, 12) == 4,
        0 <= k <= 12,
    ensures
        fill_from_mask(mask, k).2 == 8 + count_true(mask, k),
        fill_from_mask(mask, k).1 == k - count_true(mask, k),
        fill_from_mask(mask, k).0.len() == k,
        forall|i: int| 0 <= i < k ==> (#[trigger] fill_from_mask(mask, k).0[i] >= 8) == mask[i],
    decreases k,
{
    if k > 0 {
        lemma_fill_marks(mask, k - 1);
        lemma_falses_grow(mask, k, 12);
        lemma_falses_grow(mask, 0, k - 1);
        let prev = fill_from_mask(mask, k - 1);
        assert forall|i: int| 0 <= i < k implies (#[trigger] fill_from_mask(mask, k).0[i] >= 8) == mask[i] by {
            if i < k - 1 {
                assert(fill_from_mask(mask, k).0[i] == prev.0[i]);
            } else if mask[k - 1] {
                assert(count_true(mask, k - 1) <= 4) by {
                    lemma_falses_grow(mask, k - 1, 12);
                }
                assert(fill_from_mask(mask, k).0[i] == prev.2 as u8);
            } else {
                assert(count_true(mask, k) == count_true(mask, k - 1));
                assert(prev.1 < 8);
                assert(fill_from_mask(mask, k).0[i] == prev.1 as u8);
            }
        }
    }
}

/// Reading a middle-slice coordinate back gives it again: the edges the
/// coordinate decodes to put the middle-slice edges in slots of that rank,
/// and there are four of them.
pub proof fn lemma_udslice_round_trip(coord: int)
    requires
        0 <= coord < N_UDSLICE,
    ensures
        count_true(decode_mask(coord), 12) == 4,
        mask_rank(decode_mask(coord)) == coord,
        Seq::new(12, |i: int| fill_from_mask(decode_mask(coord), 12).0[i] >= 8) == decode_mask(coord),
{
    let (v0, v1, v2, v3) = lemma_decode_slots(coord);
    let m = decode_mask(coord);
    let sl = seq![v0, v1, v2, v3];
    assert forall|i: int| 0 <= i < 12 implies m[i] == (i == v0 || i == v1 || i == v2 || i == v3) by {
        if i == v0 || i == v1 || i == v2 || i == v3 {
            if i == v0 {
                assert(sl[0] == i);
            } else if i == v1 {
                assert(sl[1] == i);
            } else if i == v2 {
                assert(sl[2] == i);
            } else {
                assert(sl[3] == i);
            }
        }
    }
    lemma_scan_four(m, v0, v1, v2, v3, 12);
    lemma_fill_marks(m, 12);
    assert(Seq::new(12, |i: int| fill_from_mask(m, 12).0[i] >= 8) =~= m);
}

} // verus!
