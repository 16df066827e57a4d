//! Ranking and unranking of permutations and digit strings, shared by the
//! state encodings of the solvers.

use vstd::prelude::*;

verus! {

/// Number of entries after position `i`, up to position `j`, smaller than `p[i]`.
pub open spec fn count_less_after(p: Seq<u8>, i: int, j: int) -> int
    decreases j - i,
{
    if j <= i + 1 {
        0
    } else {
        count_less_after(p, i, j - 1) + if p[j - 1] < p[i] {
            1int
        } else {
            0int
        }
    }
}

/// Lehmer rank of the first `k` entries of a permutation of length `n`,
/// read as a mixed-radix number with radices `n, n-1, ...`.
pub open spec fn perm_rank(p: Seq<u8>, n: int, k: int) -> int
    decreases k,
{
    if k <= 0 {
        0
    } else {
        perm_rank(p, n, k - 1) * (n - (k - 1)) + count_less_after(p, k - 1, n)
    }
}

/// The first `k` digits of `d`, most significant first, in base `radix`.
pub open spec fn digits_rank(d: Seq<u8>, radix: int, k: int) -> int
    decreases k,
{
    if k <= 0 {
        0
    } else {
        digits_rank(d, radix, k - 1) * radix + d[k - 1]
    }
}

/// The `k` base-`radix` digits of `v`, most significant first.
pub open spec fn digits_of(v: int, radix: int, k: int) -> Seq<u8>
    decreases k,
{
    if k <= 0 {
        Seq::empty()
    } else {
        digits_of(v / radix, radix, k - 1).push((v % radix) as u8)
    }
}

pub open spec fn factorial(n: int) -> int
    decreases n,
{
    if n <= 1 {
        1
    } else {
        n * factorial(n - 1)
    }
}

/// Permutation with Lehmer rank `idx` drawn from the symbols of `pool`.
pub open spec fn unrank(idx: int, pool: Seq<u8>) -> Seq<u8>
    decreases pool.len(),
{
    let f = factorial(pool.len() - 1);
    let pick = idx / f;
    if pool.len() == 0 || pick < 0 || pick >= pool.len() {
        Seq::empty()
    } else {
        seq![pool[pick]] + unrank(idx % f, pool.remove(pick))
    }
}

pub open spec fn identity_pool(n: int) -> Seq<u8> {
    Seq::new(n as nat, |i: int| i as u8)
}

proof fn lemma_count_bound(p: Seq<u8>, i: int, j: int)
    requires
        0 <= i,
        i + 1 <= j,
    ensures
        0 <= count_less_after(p, i, j) <= j - i - 1,
    decreases j - i,
{
    if j > i + 1 {
        lemma_count_bound(p, i, j - 1);
    }
}

pub proof fn lemma_factorial_positive(n: int)
    ensures
        factorial(n) >= 1,
    decreases n,
{
    if n > 1 {
        lemma_factorial_positive(n - 1);
        assert(n * factorial(n - 1) >= 1) by (nonlinear_arith)
            requires
                n > 1,
                factorial(n - 1) >= 1,
        ;
    }
}

/// `n (n-1) ... (n-k+1)`.
pub open spec fn falling(n: int, k: int) -> int
    decreases k,
{
    if k <= 0 {
        1
    } else {
        falling(n, k - 1) * (n - (k - 1))
    }
}

pub proof fn lemma_falling_factorial(n: int, k: int)
    requires
        0 <= k <= n,
    ensures
        falling(n, k) * factorial(n - k) == factorial(n),
        falling(n, k) >= 1,
    decreases k,
{
    if k > 0 {
        lemma_falling_factorial(n, k - 1);
        let a = falling(n, k - 1);
        let m = n - (k - 1);
        assert(factorial(m) == m * factorial(n - k));
        assert(a * m * factorial(n - k) == a * (m * factorial(n - k))) by (nonlinear_arith);
        assert(a * m >= 1) by (nonlinear_arith)
            requires
                a >= 1,
                m >= 1,
        ;
    }
}

/// The Lehmer rank of the first `k` entries stays below `n (n-1) ... (n-k+1)`.
pub proof fn lemma_perm_rank_bound(p: Seq<u8>, n: int, k: int)
    requires
        0 <= k <= n,
    ensures
        0 <= perm_rank(p, n, k) < falling(n, k),
    decreases k,
{
    if k > 0 {
        lemma_perm_rank_bound(p, n, k - 1);
        lemma_count_bound(p, k - 1, n);
        let r = perm_rank(p, n, k - 1);
        let c = count_less_after(p, k - 1, n);
        let m = n - (k - 1);
        assert(0 <= r * m + c < falling(n, k - 1) * m) by (nonlinear_arith)
            requires
                0 <= c <= m - 1,
                0 <= r < falling(n, k - 1),
                m >= 1,
        ;
    }
}

pub proof fn lemma_small_factorials()
    ensures
        forall|k: int| 0 <= k <= 8 ==> #[trigger] factorial(k) <= 40320,
        factorial(3) == 6,
        factorial(4) == 24,
        factorial(7) == 5040,
        factorial(8) == 40320,
{
    assert(factorial(0) == 1);
    assert(factorial(1) == 1);
    assert(factorial(2) == 2);
    assert(factorial(3) == 6);
    assert(factorial(4) == 24);
    assert(factorial(5) == 120);
    assert(factorial(6) == 720);
    assert(factorial(7) == 5040);
    assert(factorial(8) == 40320);
}

/// Lehmer rank of a permutation of length `n <= 8`.
pub fn lex_rank(perm: &[u8]) -> (r: u32)
    requires
        perm@.len() <= 8,
    ensures
        r == perm_rank(perm@, perm@.len() as int, perm@.len() as int),
        (r as int) < factorial(perm@.len() as int),
{
    let n = perm.len();
    let ghost ni = n as int;
    proof {
        lemma_small_factorials();
        lemma_falling_factorial(ni, ni);
    }
    let mut rank: u32 = 0;
    let mut i: usize = 0;
    while i < n
        invariant
            n == perm@.len(),
            ni == n,
            n <= 8,
            factorial(ni) <= 40320,
            i <= n,
            rank == perm_rank(perm@, ni, i as int),
            rank < falling(ni, i as int),
        decreases n - i,
    {
        let mut count: u32 = 0;
        let mut j: usize = i + 1;
        while j < n
            invariant
                n == perm@.len(),
                n <= 8,
                i < n,
                i + 1 <= j <= n,
                count == count_less_after(perm@, i as int, j as int),
                count <= j - i - 1,
            decreases n - j,
        {
            if perm[j] < perm[i] {
                count = count + 1;
            }
            j = j + 1;
        }
        proof {
            lemma_perm_rank_bound(perm@, ni, i + 1);
            lemma_falling_factorial(ni, i + 1);
            lemma_factorial_positive(ni - (i + 1));
            assert(falling(ni, i + 1) <= factorial(ni)) by (nonlinear_arith)
                requires
                    falling(ni, i + 1) * factorial(ni - (i + 1)) == factorial(ni),
                    factorial(ni - (i + 1)) >= 1,
                    falling(ni, i + 1) >= 1,
            ;
            assert(rank * (n - i) + count == perm_rank(perm@, ni, i + 1));
        }
        rank = rank * (n - i) as u32 + count;
        i = i + 1;
    }
    proof {
        lemma_falling_factorial(ni, ni);
        assert(factorial(ni - ni) == 1);
        assert(falling(ni, ni) == factorial(ni));
    }
    rank
}

pub open spec fn pow(r: int, k: int) -> int
    decreases k,
{
    if k <= 0 {
        1
    } else {
        pow(r, k - 1) * r
    }
}

pub proof fn lemma_digits_rank_bound(d: Seq<u8>, radix: int, k: int)
    requires
        0 <= k <= d.len(),
        radix >= 1,
        forall|i: int| 0 <= i < k ==> d[i] < radix,
    ensures
        0 <= digits_rank(d, radix, k) < pow(radix, k),
    decreases k,
{
    if k > 0 {
        lemma_digits_rank_bound(d, radix, k - 1);
        let a = digits_rank(d, radix, k - 1);
        assert(0 <= a * radix + d[k - 1] < pow(radix, k - 1) * radix) by (nonlinear_arith)
            requires
                0 <= a < pow(radix, k - 1),
                0 <= d[k - 1] < radix,
        ;
    }
}

/// Any digit string of length `k` ranks at most `255 (radix^k - 1)`.
pub(crate) proof fn lemma_digits_rank_loose(d: Seq<u8>, radix: int, k: int)
    requires
        0 <= k <= d.len(),
        radix >= 2,
    ensures
        0 <= digits_rank(d, radix, k) <= 255 * (pow(radix, k) - 1),
    decreases k,
{
    if k > 0 {
        lemma_digits_rank_loose(d, radix, k - 1);
        let a = digits_rank(d, radix, k - 1);
        let p = pow(radix, k - 1);
        assert(0 <= a * radix + d[k - 1] <= 255 * (p * radix - 1)) by (nonlinear_arith)
            requires
                0 <= a <= 255 * (p - 1),
                0 <= d[k - 1] <= 255,
                radix >= 2,
        ;
    }
}

/// First `k` digits of `d`, most significant first, as a base-`radix` number.
pub fn digit_rank(d: &[u8], radix: u32, k: usize) -> (r: u32)
    requires
        k <= d@.len(),
        2 <= radix <= 3,
        k <= 11,
    ensures
        r == digits_rank(d@, radix as int, k as int),
        (forall|i: int| 0 <= i < k ==> d@[i] < radix) ==> r < pow(radix as int, k as int),
{
    proof {
        lemma_pow_small(radix as int, k as int);
    }
    let mut v: u32 = 0;
    let mut i: usize = 0;
    while i < k
        invariant
            k <= d@.len(),
            2 <= radix <= 3,
            k <= 11,
            pow(radix as int, k as int) <= 177147,
            i <= k,
            v == digits_rank(d@, radix as int, i as int),
        decreases k - i,
    {
        proof {
            lemma_digits_rank_loose(d@, radix as int, i + 1);
            lemma_pow_mono(radix as int, i + 1, k as int);
        }
        v = v * radix + d[i] as u32;
        i = i + 1;
    }
    proof {
        if forall|i: int| 0 <= i < k ==> d@[i] < radix {
            lemma_digits_rank_bound(d@, radix as int, k as int);
        }
    }
    v
}

pub(crate) proof fn lemma_pow_mono(r: int, a: int, b: int)
    requires
        r >= 1,
        0 <= a <= b,
    ensures
        1 <= pow(r, a) <= pow(r, b),
    decreases b,
{
    if b > a {
        lemma_pow_mono(r, a, b - 1);
        assert(pow(r, b - 1) <= pow(r, b - 1) * r) by (nonlinear_arith)
            requires
                pow(r, b - 1) >= 1,
                r >= 1,
        ;
    } else if a > 0 {
        lemma_pow_mono(r, a - 1, a - 1);
        assert(pow(r, a - 1) * r >= 1) by (nonlinear_arith)
            requires
                pow(r, a - 1) >= 1,
                r >= 1,
        ;
    }
}

proof fn lemma_pow_small(r: int, k: int)
    requires
        2 <= r <= 3,
        0 <= k <= 11,
    ensures
        pow(r, k) <= 177147,
{
    lemma_pow_mono(r, k, 11);
    lemma_pow_mono(2, 0, 11);
    assert(pow(2, 11) == 2048) by {
        reveal_with_fuel(pow, 12);
    }
    assert(pow(3, 11) == 177147) by {
        reveal_with_fuel(pow, 12);
    }
}

/// The `k` base-`radix` digits of `v`, most significant first.
pub fn digits_from(v: u32, radix: u32, k: usize) -> (r: Vec<u8>)
    requires
        2 <= radix <= 256,
    ensures
        r@ == digits_of(v as int, radix as int, k as int),
        r@.len() == k,
        forall|i: int| 0 <= i < k ==> r@[i] < radix,
    decreases k,
{
    if k == 0 {
        Vec::new()
    } else {
        let mut d = digits_from(v / radix, radix, k - 1);
        d.push((v % radix) as u8);
        d
    }
}

/// Appending a digit does not change the rank of the digits before it.
pub(crate) proof fn lemma_digits_rank_push(s: Seq<u8>, x: u8, radix: int, j: int)
    requires
        0 <= j <= s.len(),
    ensures
        digits_rank(s.push(x), radix, j) == digits_rank(s, radix, j),
    decreases j,
{
    if j > 0 {
        lemma_digits_rank_push(s, x, radix, j - 1);
    }
}

/// Reading the digits of `v` back gives `v`, for `v` below `radix^k`.
pub proof fn lemma_digits_round_trip(v: int, radix: int, k: int)
    requires
        2 <= radix <= 256,
        k >= 0,
        0 <= v < pow(radix, k),
    ensures
        digits_rank(digits_of(v, radix, k), radix, k) == v,
        digits_of(v, radix, k).len() == k,
    decreases k,
{
    if k > 0 {
        let q = v / radix;
        assert(q < pow(radix, k - 1)) by (nonlinear_arith)
            requires
                0 <= v < pow(radix, k - 1) * radix,
                radix >= 2,
                q == v / radix,
        ;
        lemma_digits_round_trip(q, radix, k - 1);
        let d = digits_of(q, radix, k - 1);
        lemma_digits_rank_push(d, (v % radix) as u8, radix, k - 1);
        assert(q * radix + v % radix == v) by (nonlinear_arith)
            requires
                radix >= 2,
                q == v / radix,
        ;
    }
}

pub fn fact(k: u32) -> (r: u32)
    requires
        k <= 8,
    ensures
        r == factorial(k as int),
{
    proof {
        lemma_small_factorials();
    }
    if k <= 1 {
        return 1;
    }
    let mut f: u32 = 1;
    let mut i: u32 = 1;
    while i < k
        invariant
            k <= 8,
            1 <= i <= k,
            forall|j: int| 0 <= j <= 8 ==> #[trigger] factorial(j) <= 40320,
            f == factorial(i as int),
        decreases k - i,
    {
        proof {
            assert(factorial(i + 1) == (i + 1) * factorial(i as int));
            assert(factorial(i + 1) <= 40320);
            assert(f * (i + 1) == factorial(i + 1)) by (nonlinear_arith)
                requires
                    f == factorial(i as int),
                    factorial(i + 1) == (i + 1) * factorial(i as int),
            ;
        }
        i = i + 1;
        f = f * i;
    }
    f
}

/// Permutation of `0..n` with Lehmer rank `idx`: at each step the symbol
/// at position `idx / (remaining - 1)!` of the remaining pool is taken.
pub fn lex_unrank(idx: u32, n: usize) -> (r: Vec<u8>)
    requires
        n <= 8,
        idx < factorial(n as int),
    ensures
        r@ == unrank(idx as int, identity_pool(n as int)),
        r@.len() == n,
{
    let mut pool: Vec<u8> = Vec::new();
    let mut k: usize = 0;
    while k < n
        invariant
            k <= n,
            n <= 8,
            pool@ =~= identity_pool(k as int),
        decreases n - k,
    {
        pool.push(k as u8);
        k = k + 1;
    }
    let ghost whole = unrank(idx as int, identity_pool(n as int));
    let mut out: Vec<u8> = Vec::new();
    let mut rest = idx;
    while pool.len() > 0
        invariant
            n <= 8,
            pool@.len() <= n,
            rest < factorial(pool@.len() as int),
            out@ + unrank(rest as int, pool@) == whole,
            out@.len() + pool@.len() == n,
        decreases pool@.len(),
    {
        let len = pool.len();
        let f = fact((len - 1) as u32);
        proof {
            lemma_factorial_positive(len - 1);
            assert(factorial(len as int) == len * factorial(len - 1));
            assert(rest / f < len) by (nonlinear_arith)
                requires
                    rest < len * f,
                    f >= 1,
            ;
            assert(rest % f < f) by (nonlinear_arith)
                requires
                    f >= 1,
            ;
        }
        let pick = (rest / f) as usize;
        let ghost before = pool@;
        let sym = pool.remove(pick);
        proof {
            assert(unrank(rest as int, before) == seq![sym] + unrank((rest % f) as int, pool@));
            assert(out@.push(sym) + unrank((rest % f) as int, pool@) =~= out@ + (seq![sym] + unrank((rest % f) as int, pool@)));
        }
        out.push(sym);
        rest = rest % f;
    }
    proof {
        assert(unrank(rest as int, pool@) =~= Seq::<u8>::empty());
        assert(out@ + Seq::<u8>::empty() =~= out@);
    }
    out
}

/// Every symbol of an unranked permutation comes from the pool.
pub proof fn lemma_unrank_values(idx: int, pool: Seq<u8>)
    ensures
        forall|k: int| 0 <= k < unrank(idx, pool).len() ==> pool.contains(#[trigger] unrank(idx, pool)[k]),
    decreases pool.len(),
{
    let f = factorial(pool.len() - 1);
    let pick = idx / f;
    if !(pool.len() == 0 || pick < 0 || pick >= pool.len()) {
        let rest = pool.remove(pick);
        lemma_unrank_values(idx % f, rest);
        let u = unrank(idx, pool);
        assert forall|k: int| 0 <= k < u.len() implies pool.contains(#[trigger] u[k]) by {
            if k == 0 {
                assert(pool[pick] == u[0]);
            } else {
                let x = unrank(idx % f, rest)[k - 1];
                assert(rest.contains(x));
                let j = choose|j: int| 0 <= j < rest.len() && rest[j] == x;
                if j < pick {
                    assert(pool[j] == x);
                } else {
                    assert(pool[j + 1] == x);
                }
            }
        }
    }
}

/// Number of entries of `s` smaller than `v`.
pub open spec fn count_lt(s: Seq<u8>, v: u8) -> int
    decreases s.len(),
{
    if s.len() == 0 {
        0
    } else {
        count_lt(s.drop_last(), v) + if s.last() < v {
            1int
        } else {
            0int
        }
    }
}

proof fn lemma_count_lt_concat(a: Seq<u8>, b: Seq<u8>, v: u8)
    ensures
        count_lt(a + b, v) == count_lt(a, v) + count_lt(b, v),
    decreases b.len(),
{
    if b.len() == 0 {
        assert(a + b =~= a);
    } else {
        assert((a + b).drop_last() =~= a + b.drop_last());
        lemma_count_lt_concat(a, b.drop_last(), v);
    }
}

proof fn lemma_count_lt_bounds(s: Seq<u8>, v: u8)
    ensures
        (forall|k: int| 0 <= k < s.len() ==> s[k] >= v) ==> count_lt(s, v) == 0,
        (forall|k: int| 0 <= k < s.len() ==> s[k] < v) ==> count_lt(s, v) == s.len(),
    decreases s.len(),
{
    if s.len() > 0 {
        lemma_count_lt_bounds(s.drop_last(), v);
    }
}

proof fn lemma_count_less_after_lt(p: Seq<u8>, i: int, j: int)
    requires
        0 <= i < j <= p.len(),
    ensures
        count_less_after(p, i, j) == count_lt(p.subrange(i + 1, j), p[i]),
    decreases j - i,
{
    if j == i + 1 {
        assert(p.subrange(i + 1, j).len() == 0);
    } else {
        lemma_count_less_after_lt(p, i, j - 1);
        assert(p.subrange(i + 1, j).drop_last() =~= p.subrange(i + 1, j - 1));
    }
}

/// Removing entry `k` of a strictly increasing sequence leaves exactly
/// `k` entries below it.
proof fn lemma_sorted_remove_count(q: Seq<u8>, k: int)
    requires
        forall|a: int, b: int| 0 <= a < b < q.len() ==> q[a] < q[b],
        0 <= k < q.len(),
    ensures
        count_lt(q.remove(k), q[k]) == k,
{
    assert(q.remove(k) =~= q.take(k) + q.skip(k + 1));
    lemma_count_lt_concat(q.take(k), q.skip(k + 1), q[k]);
    lemma_count_lt_bounds(q.take(k), q[k]);
    lemma_count_lt_bounds(q.skip(k + 1), q[k]);
}

proof fn lemma_factorial_step(m: int)
    requires
        m >= 1,
    ensures
        factorial(m) == m * factorial(m - 1),
{
}

proof fn lemma_unrank_step(idx: int, m: int)
    requires
        m >= 1,
        0 <= idx < factorial(m),
    ensures
        factorial(m - 1) >= 1,
        0 <= idx / factorial(m - 1) < m,
        0 <= idx % factorial(m - 1) < factorial(m - 1),
        idx == (idx / factorial(m - 1)) * factorial(m - 1) + idx % factorial(m - 1),
{
    lemma_factorial_positive(m - 1);
    lemma_factorial_step(m);
    let f = factorial(m - 1);
    assert(0 <= idx / f < m) by (nonlinear_arith)
        requires
            0 <= idx < m * f,
            f >= 1,
    ;
    assert(0 <= idx % f < f && idx == (idx / f) * f + idx % f) by (nonlinear_arith)
        requires
            f >= 1,
    ;
}

/// Unranking an index below `|pool|!` permutes the whole pool: it has the
/// pool's length and as many entries below any value.
proof fn lemma_unrank_perm(idx: int, pool: Seq<u8>, v: u8)
    requires
        0 <= idx < factorial(pool.len() as int),
    ensures
        unrank(idx, pool).len() == pool.len(),
        count_lt(unrank(idx, pool), v) == count_lt(pool, v),
    decreases pool.len(),
{
    let m = pool.len() as int;
    if m == 0 {
        assert(pool =~= Seq::<u8>::empty());
    } else {
        lemma_unrank_step(idx, m);
        let f = factorial(m - 1);
        let pick = idx / f;
        let rest = pool.remove(pick);
        lemma_unrank_perm(idx % f, rest, v);
        lemma_count_lt_concat(seq![pool[pick]], unrank(idx % f, rest), v);
        assert(seq![pool[pick]].drop_last() =~= Seq::<u8>::empty());
        assert(pool =~= pool.take(pick) + (seq![pool[pick]] + pool.skip(pick + 1)));
        assert(rest =~= pool.take(pick) + pool.skip(pick + 1));
        lemma_count_lt_concat(pool.take(pick), seq![pool[pick]] + pool.skip(pick + 1), v);
        lemma_count_lt_concat(seq![pool[pick]], pool.skip(pick + 1), v);
        lemma_count_lt_concat(pool.take(pick), pool.skip(pick + 1), v);
    }
}

proof fn lemma_count_less_after_shift(p: Seq<u8>, i: int, j: int)
    requires
        p.len() >= 1,
        0 <= i,
        i + 1 <= j <= p.len() - 1,
    ensures
        count_less_after(p.drop_first(), i, j) == count_less_after(p, i + 1, j + 1),
    decreases j - i,
{
    if j > i + 1 {
        lemma_count_less_after_shift(p, i, j - 1);
    }
}

/// The Lehmer rank split at its first entry: that entry's count weighs
/// `(n-1)(n-2)...(n-k+1)`, the rest ranks as a permutation of length `n-1`.
proof fn lemma_perm_rank_front(p: Seq<u8>, n: int, k: int)
    requires
        p.len() == n,
        1 <= k <= n,
    ensures
        perm_rank(p, n, k) == count_less_after(p, 0, n) * falling(n - 1, k - 1) + perm_rank(
            p.drop_first(),
            n - 1,
            k - 1,
        ),
    decreases k,
{
    let c0 = count_less_after(p, 0, n);
    if k == 1 {
        assert(perm_rank(p, n, 0) == 0);
        assert(perm_rank(p.drop_first(), n - 1, 0) == 0);
    } else {
        lemma_perm_rank_front(p, n, k - 1);
        lemma_count_less_after_shift(p, k - 2, n - 1);
        let a = c0 * falling(n - 1, k - 2);
        let b = perm_rank(p.drop_first(), n - 1, k - 2);
        let m = n - (k - 1);
        let fk = falling(n - 1, k - 2);
        assert((a + b) * m == c0 * (fk * m) + b * m) by (nonlinear_arith)
            requires
                a == c0 * fk,
        ;
    }
}

/// Unranking then ranking gives the index back, over any strictly
/// increasing pool.
proof fn lemma_rank_unrank_pool(idx: int, pool: Seq<u8>)
    requires
        forall|a: int, b: int| 0 <= a < b < pool.len() ==> pool[a] < pool[b],
        0 <= idx < factorial(pool.len() as int),
    ensures
        perm_rank(unrank(idx, pool), pool.len() as int, pool.len() as int) == idx,
    decreases pool.len(),
{
    let m = pool.len() as int;
    if m > 0 {
        lemma_unrank_step(idx, m);
        let f = factorial(m - 1);
        let pick = idx / f;
        let rest = pool.remove(pick);
        let p = unrank(idx, pool);
        let tail = unrank(idx % f, rest);
        assert(p == seq![pool[pick]] + tail);
        lemma_unrank_perm(idx % f, rest, pool[pick]);
        lemma_unrank_perm(idx, pool, pool[pick]);
        assert(p.drop_first() =~= tail);
        lemma_count_less_after_lt(p, 0, m);
        assert(p.subrange(1, m) =~= tail);
        lemma_sorted_remove_count(pool, pick);
        lemma_rank_unrank_pool(idx % f, rest);
        lemma_perm_rank_front(p, m, m);
        lemma_falling_factorial(m - 1, m - 1);
        assert(factorial(0) == 1);
    }
}

/// An index below `|pool|!` unranks to as many entries as the pool has.
pub proof fn lemma_unrank_len(idx: int, pool: Seq<u8>)
    requires
        0 <= idx < factorial(pool.len() as int),
    ensures
        unrank(idx, pool).len() == pool.len(),
{
    lemma_unrank_perm(idx, pool, 0);
}

/// Lehmer ranking undoes unranking: the permutation of `0..n` with rank
/// `idx` ranks as `idx`.
pub proof fn lemma_rank_unrank(idx: int, n: int)
    requires
        0 <= n <= 255,
        0 <= idx < factorial(n),
    ensures
        perm_rank(unrank(idx, identity_pool(n)), n, n) == idx,
{
    lemma_rank_unrank_pool(idx, identity_pool(n));
}

/// `p` lists the entries of `pool`, each once, in some order.
pub open spec fn is_perm_of(p: Seq<u8>, pool: Seq<u8>) -> bool {
    &&& p.len() == pool.len()
    &&& p.no_duplicates()
    &&& forall|i: int| 0 <= i < p.len() ==> pool.contains(#[trigger] p[i])
}

/// Unranking an index below `|pool|!` from a pool without repeats lists
/// each entry of the pool once.
pub proof fn lemma_unrank_is_perm(idx: int, pool: Seq<u8>)
    requires
        pool.no_duplicates(),
        0 <= idx < factorial(pool.len() as int),
    ensures
        is_perm_of(unrank(idx, pool), pool),
    decreases pool.len(),
{
    let m = pool.len() as int;
    if m > 0 {
        lemma_unrank_step(idx, m);
        let f = factorial(m - 1);
        let pick = idx / f;
        let rest = pool.remove(pick);
        assert(rest.no_duplicates()) by {
            assert forall|a: int, b: int| 0 <= a < rest.len() && 0 <= b < rest.len() && a != b implies rest[a]
                != rest[b] by {
                let ia = if a < pick { a } else { a + 1 };
                let ib = if b < pick { b } else { b + 1 };
                assert(rest[a] == pool[ia] && rest[b] == pool[ib]);
            }
        }
        lemma_unrank_is_perm(idx % f, rest);
        let tail = unrank(idx % f, rest);
        let p = unrank(idx, pool);
        assert(p == seq![pool[pick]] + tail);
        assert forall|k: int| 0 <= k < tail.len() implies #[trigger] tail[k] != pool[pick] && pool.contains(tail[k]) by {
            assert(rest.contains(tail[k]));
            let j = choose|j: int| 0 <= j < rest.len() && rest[j] == tail[k];
            let ij = if j < pick { j } else { j + 1 };
            assert(rest[j] == pool[ij]);
        }
        assert forall|a: int, b: int| 0 <= a < p.len() && 0 <= b < p.len() && a != b implies p[a] != p[b] by {
            if a > 0 && b > 0 {
                assert(p[a] == tail[a - 1] && p[b] == tail[b - 1]);
            } else if a == 0 {
                assert(p[b] == tail[b - 1]);
            } else {
                assert(p[a] == tail[a - 1]);
            }
        }
        assert forall|k: int| 0 <= k < p.len() implies pool.contains(#[trigger] p[k]) by {
            if k > 0 {
                assert(p[k] == tail[k - 1]);
            }
        }
    } else {
        assert(unrank(idx, pool) =~= Seq::<u8>::empty());
    }
}

pub open spec fn strictly_increasing(q: Seq<u8>) -> bool {
    forall|a: int, b: int| 0 <= a < b < q.len() ==> q[a] < q[b]
}

proof fn lemma_count_lt_split(q: Seq<u8>, k: int, v: u8)
    requires
        0 <= k < q.len(),
    ensures
        count_lt(q, v) == (if q[k] < v {
            1int
        } else {
            0int
        }) + count_lt(q.remove(k), v),
{
    assert(q =~= q.take(k) + (seq![q[k]] + q.skip(k + 1)));
    assert(q.remove(k) =~= q.take(k) + q.skip(k + 1));
    lemma_count_lt_concat(q.take(k), seq![q[k]] + q.skip(k + 1), v);
    lemma_count_lt_concat(seq![q[k]], q.skip(k + 1), v);
    lemma_count_lt_concat(q.take(k), q.skip(k + 1), v);
    let one = seq![q[k]];
    assert(one.drop_last() =~= Seq::<u8>::empty());
    assert(count_lt(one.drop_last(), v) == 0);
    assert(one.last() == q[k]);
    assert(count_lt(one, v) == (if q[k] < v {
        1int
    } else {
        0int
    }));
}

/// Dropping the first entry of a permutation of a sorted pool leaves a
/// permutation of the pool without that entry.
proof fn lemma_perm_drop_first(p: Seq<u8>, pool: Seq<u8>) -> (k: int)
    requires
        strictly_increasing(pool),
        is_perm_of(p, pool),
        p.len() > 0,
    ensures
        0 <= k < pool.len(),
        pool[k] == p[0],
        is_perm_of(p.drop_first(), pool.remove(k)),
        strictly_increasing(pool.remove(k)),
{
    assert(pool.contains(p[0]));
    let k = choose|k: int| 0 <= k < pool.len() && pool[k] == p[0];
    let rest = p.drop_first();
    let pr = pool.remove(k);
    assert forall|i: int| 0 <= i < rest.len() implies pr.contains(#[trigger] rest[i]) by {
        let x = rest[i];
        assert(x == p[i + 1]);
        assert(pool.contains(p[i + 1]));
        let j = choose|j: int| 0 <= j < pool.len() && pool[j] == x;
        assert(x != p[0]);
        if j < k {
            assert(pr[j] == x);
        } else {
            assert(j != k);
            assert(pr[j - 1] == x);
        }
    }
    assert forall|a: int, b: int| 0 <= a < b < pr.len() implies pr[a] < pr[b] by {
        if b < k {
        } else if a < k {
            assert(pr[b] == pool[b + 1]);
        } else {
            assert(pr[a] == pool[a + 1] && pr[b] == pool[b + 1]);
        }
    }
    k
}

/// Reordering keeps the number of entries below any value.
proof fn lemma_perm_count(p: Seq<u8>, pool: Seq<u8>, v: u8)
    requires
        strictly_increasing(pool),
        is_perm_of(p, pool),
    ensures
        count_lt(p, v) == count_lt(pool, v),
    decreases pool.len(),
{
    if p.len() > 0 {
        let k = lemma_perm_drop_first(p, pool);
        lemma_perm_count(p.drop_first(), pool.remove(k), v);
        lemma_count_lt_split(p, 0, v);
        assert(p.remove(0) =~= p.drop_first());
        lemma_count_lt_split(pool, k, v);
    } else {
        assert(pool.len() == 0);
        assert(p =~= pool);
    }
}

proof fn lemma_unrank_rank_pool(p: Seq<u8>, pool: Seq<u8>)
    requires
        strictly_increasing(pool),
        is_perm_of(p, pool),
    ensures
        unrank(perm_rank(p, pool.len() as int, pool.len() as int), pool) == p,
    decreases pool.len(),
{
    let m = pool.len() as int;
    if m == 0 {
        assert(p =~= Seq::<u8>::empty());
        assert(unrank(0, pool) =~= Seq::<u8>::empty());
    } else {
        let k = lemma_perm_drop_first(p, pool);
        let rest = p.drop_first();
        lemma_unrank_rank_pool(rest, pool.remove(k));
        lemma_count_less_after_lt(p, 0, m);
        assert(p.subrange(1, m) =~= rest);
        lemma_perm_count(rest, pool.remove(k), p[0]);
        lemma_sorted_remove_count(pool, k);
        let c0 = count_less_after(p, 0, m);
        assert(c0 == k);
        lemma_perm_rank_front(p, m, m);
        lemma_falling_factorial(m - 1, m - 1);
        assert(factorial(0) == 1);
        let f = factorial(m - 1);
        lemma_factorial_positive(m - 1);
        let r2 = perm_rank(rest, m - 1, m - 1);
        lemma_perm_rank_bound(rest, m - 1, m - 1);
        let idx = perm_rank(p, m, m);
        assert(idx == k * f + r2);
        assert(idx / f == k && idx % f == r2) by (nonlinear_arith)
            requires
                idx == k * f + r2,
                0 <= r2 < f,
                0 <= k,
        ;
        assert(unrank(idx, pool) == seq![pool[k]] + unrank(r2, pool.remove(k)));
        assert(p =~= seq![p[0]] + rest);
    }
}

/// Lehmer unranking undoes ranking: a permutation of `0..n` is the
/// permutation with its own rank.
pub proof fn lemma_unrank_rank(p: Seq<u8>, n: int)
    requires
        0 <= n <= 256,
        p.len() == n,
        p.no_duplicates(),
        forall|i: int| 0 <= i < n ==> p[i] < n,
    ensures
        unrank(perm_rank(p, n, n), identity_pool(n)) == p,
{
    let pool = identity_pool(n);
    assert forall|i: int| 0 <= i < n implies pool.contains(#[trigger] p[i]) by {
        assert(pool[p[i] as int] == p[i]);
    }
    lemma_unrank_rank_pool(p, pool);
}

/// Reading back the digits of a digit string's rank gives the string.
pub proof fn lemma_rank_digits(d: Seq<u8>, radix: int, k: int)
    requires
        2 <= radix <= 256,
        0 <= k <= d.len(),
        forall|i: int| 0 <= i < k ==> d[i] < radix,
    ensures
        digits_of(digits_rank(d, radix, k), radix, k) == d.take(k),
    decreases k,
{
    if k > 0 {
        lemma_rank_digits(d, radix, k - 1);
        lemma_digits_rank_bound(d, radix, k - 1);
        let a = digits_rank(d, radix, k - 1);
        let v = a * radix + d[k - 1];
        assert(v / radix == a && v % radix == d[k - 1]) by (nonlinear_arith)
            requires
                v == a * radix + d[k - 1],
                0 <= d[k - 1] < radix,
                0 <= a,
        ;
        assert(d.take(k) =~= d.take(k - 1).push(d[k - 1]));
    } else {
        assert(d.take(0) =~= Seq::<u8>::empty());
    }
}

} // verus!
