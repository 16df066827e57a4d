//! Solve times as a clock reading: `s.mmm` below a minute, `m:ss.mmm`
//! from a minute on.

use vstd::prelude::*;
use crate::parser::{digit_char, push_char};

verus! {

/// Decimal digits of `n`, without leading zeros.
pub open spec fn dec_digits(n: nat) -> Seq<char>
    decreases n,
{
    if n < 10 {
        seq![digit_char(n as int)]
    } else {
        dec_digits(n / 10).push(digit_char((n % 10) as int))
    }
}

/// `v` as exactly `k` decimal digits, zero-padded on the left.
pub open spec fn padded(v: nat, k: nat) -> Seq<char>
    decreases k,
{
    if k == 0 {
        Seq::empty()
    } else {
        padded(v / 10, (k - 1) as nat).push(digit_char((v % 10) as int))
    }
}

/// The clock text of `ms` milliseconds.
pub open spec fn clock_text(ms: nat) -> Seq<char> {
    let m = ms / 60_000;
    let s = (ms % 60_000) / 1000;
    let frac = ms % 1000;
    if m > 0 {
        dec_digits(m) + seq![':'] + padded(s, 2) + seq!['.'] + padded(frac, 3)
    } else {
        dec_digits(s) + seq!['.'] + padded(frac, 3)
    }
}

fn push_decimal(out: &mut String, n: u64)
    ensures
        final(out)@ == old(out)@ + dec_digits(n as nat),
    decreases n,
{
    if n >= 10 {
        push_decimal(out, n / 10);
    }
    let d = (n % 10) as u8;
    push_char(out, (48 + d) as char);
    proof {
        assert(final(out)@ =~= old(out)@ + dec_digits(n as nat));
    }
}

fn push_padded(out: &mut String, v: u64, k: u8)
    ensures
        final(out)@ == old(out)@ + padded(v as nat, k as nat),
    decreases k,
{
    if k > 0 {
        push_padded(out, v / 10, k - 1);
        let d = (v % 10) as u8;
        push_char(out, (48 + d) as char);
    }
    proof {
        assert(final(out)@ =~= old(out)@ + padded(v as nat, k as nat));
    }
}

/// The clock reading of a time in milliseconds.
pub fn format_ms(ms: u32) -> (r: String)
    ensures
        r@ == clock_text(ms as nat),
{
    let total = ms as u64;
    let m = total / 60_000;
    let s = (total % 60_000) / 1000;
    let frac = total % 1000;
    let mut out = String::new();
    if m > 0 {
        push_decimal(&mut out, m);
        push_char(&mut out, ':');
        push_padded(&mut out, s, 2);
    } else {
        push_decimal(&mut out, s);
    }
    push_char(&mut out, '.');
    push_padded(&mut out, frac, 3);
    proof {
        assert(out@ =~= clock_text(ms as nat));
    }
    out
}

} // verus!
