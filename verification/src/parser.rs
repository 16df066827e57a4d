//! WCA-style notation parser and printer.
//!
//! Accepts face turns `U D L R F B` with an optional `'` or `2`; wide turns
//! `Rw` and `r`; layered turns `2R` (that slice only) and `3Rw` (outer three
//! layers); the slice moves `M E S`; and the cube rotations `x y z` (also
//! upper case), which become wide turns over the whole cube. Whitespace
//! between moves is ignored. Positions in errors are byte offsets.

use vstd::prelude::*;
use vstd::string::StringSliceAdditionalSpecFns;
use vstd::utf8::{encode_utf8, is_ascii_chars, is_ascii_chars_encode_utf8};
use crate::error::ParseError;
use crate::moves::{CubeRotation, Face, Move, MoveSeq, Turn, face_symbol, rotation_as_move};

verus! {

// ---------------------------------------------------------------------
// The grammar, over bytes.
// ---------------------------------------------------------------------

/// ASCII whitespace: space, tab, line feed, form feed, carriage return.
pub open spec fn is_ws(b: u8) -> bool {
    b == 32 || b == 9 || b == 10 || b == 12 || b == 13
}

pub open spec fn is_digit(b: u8) -> bool {
    48 <= b <= 57
}

/// First position at or after `pos` that is not whitespace.
pub open spec fn skip_ws_from(s: Seq<u8>, pos: int) -> int
    decreases s.len() - pos,
{
    if 0 <= pos < s.len() && is_ws(s[pos]) {
        skip_ws_from(s, pos + 1)
    } else {
        pos
    }
}

/// First position at or after `pos` that is not a digit.
pub open spec fn digits_end(s: Seq<u8>, pos: int) -> int
    decreases s.len() - pos,
{
    if 0 <= pos < s.len() && is_digit(s[pos]) {
        digits_end(s, pos + 1)
    } else {
        pos
    }
}

/// Decimal value of the digits `s[start..end]`.
pub open spec fn digits_value(s: Seq<u8>, start: int, end: int) -> int
    decreases end - start,
{
    if end <= start {
        0
    } else {
        digits_value(s, start, end - 1) * 10 + (s[end - 1] - 48)
    }
}

/// Layer count written at `start`: absent when there are no digits or
/// their value does not fit in a `u8`.
pub open spec fn layer_at(s: Seq<u8>, start: int) -> Option<u8> {
    let e = digits_end(s, start);
    if e == start || digits_value(s, start, e) > 255 {
        None
    } else {
        Some(digits_value(s, start, e) as u8)
    }
}

/// Optional turn suffix at `pos`: the turn and the position after it.
pub open spec fn turn_at(s: Seq<u8>, pos: int) -> (Turn, int) {
    if 0 <= pos < s.len() && s[pos] == 39 {
        (Turn::Ccw, pos + 1)
    } else if 0 <= pos < s.len() && s[pos] == 50 {
        (Turn::Half, pos + 1)
    } else {
        (Turn::Cw, pos)
    }
}

pub open spec fn is_upper_face(c: u8) -> bool {
    c == 85 || c == 68 || c == 76 || c == 82 || c == 70 || c == 66
}

pub open spec fn is_lower_face(c: u8) -> bool {
    c == 117 || c == 100 || c == 108 || c == 114 || c == 102 || c == 98
}

/// `M`, `E`, `S`.
pub open spec fn is_slice(c: u8) -> bool {
    c == 77 || c == 69 || c == 83
}

/// `x y z X Y Z`.
pub open spec fn is_rotation(c: u8) -> bool {
    c == 120 || c == 88 || c == 121 || c == 89 || c == 122 || c == 90
}

/// Face, default depth and wideness of a face or slice letter.
pub open spec fn letter_move(c: u8) -> (Face, u8, bool) {
    if c == 85 {
        (Face::U, 1, false)
    } else if c == 68 {
        (Face::D, 1, false)
    } else if c == 76 {
        (Face::L, 1, false)
    } else if c == 82 {
        (Face::R, 1, false)
    } else if c == 70 {
        (Face::F, 1, false)
    } else if c == 66 {
        (Face::B, 1, false)
    } else if c == 117 {
        (Face::U, 2, true)
    } else if c == 100 {
        (Face::D, 2, true)
    } else if c == 108 {
        (Face::L, 2, true)
    } else if c == 114 {
        (Face::R, 2, true)
    } else if c == 102 {
        (Face::F, 2, true)
    } else if c == 98 {
        (Face::B, 2, true)
    } else if c == 77 {
        (Face::L, 2, false)
    } else if c == 69 {
        (Face::D, 2, false)
    } else {
        (Face::F, 2, false)
    }
}

pub open spec fn rotation_of(c: u8, t: Turn) -> CubeRotation {
    if c == 120 || c == 88 {
        CubeRotation::X(t)
    } else if c == 121 || c == 89 {
        CubeRotation::Y(t)
    } else {
        CubeRotation::Z(t)
    }
}

/// The move written at `start` (no leading whitespace) and the position
/// after it.
pub open spec fn token_at(s: Seq<u8>, start: int, size: u8) -> Result<(Move, int), ParseError> {
    let e = digits_end(s, start);
    let layer = layer_at(s, start);
    if e >= s.len() {
        Err(ParseError::UnexpectedEnd)
    } else {
        let c = s[e];
        if is_rotation(c) {
            if layer is Some {
                Err(ParseError::UnexpectedChar(c as char, start as usize))
            } else {
                let (t, q) = turn_at(s, e + 1);
                Ok((rotation_as_move(rotation_of(c, t), size), q))
            }
        } else if !(is_upper_face(c) || is_lower_face(c) || is_slice(c)) {
            Err(ParseError::UnexpectedChar(c as char, e as usize))
        } else {
            let (face, d0, w0) = letter_move(c);
            let saw_w = is_upper_face(c) && e + 1 < s.len() && s[e + 1] == 119;
            let after = if saw_w {
                e + 2
            } else {
                e + 1
            };
            let (t, q) = turn_at(s, after);
            match layer {
                Some(d) => if d == 0 {
                    Err(ParseError::InvalidLayerCount(d))
                } else if is_lower_face(c) || is_slice(c) {
                    Err(ParseError::UnexpectedChar(c as char, start as usize))
                } else {
                    Ok((Move { face, turn: t, depth: d, wide: saw_w }, q))
                },
                None => if saw_w {
                    Ok((Move { face, turn: t, depth: 2, wide: true }, q))
                } else {
                    Ok((Move { face, turn: t, depth: d0, wide: w0 }, q))
                },
            }
        }
    }
}

/// The outer face letter whose turning direction a slice letter follows:
/// `L` for `M`, `D` for `E`, `F` for `S`.
pub open spec fn slice_reference(c: u8) -> u8 {
    if c == 77 {
        76
    } else if c == 69 {
        68
    } else {
        70
    }
}

/// A slice letter reads as the middle layer turned the way of its
/// reference face: the same move as `2` written before the reference
/// face's letter, whatever follows (short of a `w`, which only an outer
/// face letter takes).
pub proof fn lemma_slice_is_inner_layer(s: Seq<u8>, start: int, size: u8)
    requires
        0 <= start < s.len(),
        is_slice(s[start]),
        start + 1 >= s.len() || s[start + 1] != 119,
    ensures
        ({
            let s2 = s.take(start) + seq![50u8, slice_reference(s[start])] + s.skip(start + 1);
            &&& token_at(s, start, size) is Ok
            &&& token_at(s2, start, size) == Ok::<(Move, int), ParseError>(
                (token_at(s, start, size)->Ok_0.0, token_at(s, start, size)->Ok_0.1 + 1),
            )
        }),
{
    let c = s[start];
    let rf = slice_reference(c);
    let s2 = s.take(start) + seq![50u8, rf] + s.skip(start + 1);
    assert(s2.len() == s.len() + 1);
    assert(s2[start] == 50u8);
    assert(s2[start + 1] == rf);
    assert forall|i: int| start + 2 <= i < s2.len() implies s2[i] == s[i - 1] by {}
    assert(digits_end(s, start) == start);
    assert(digits_end(s2, start + 1) == start + 1);
    assert(digits_end(s2, start) == start + 1);
    assert(digits_value(s2, start, start) == 0);
    assert(digits_value(s2, start, start + 1) == 2);
    assert(layer_at(s2, start) == Some(2u8));
    assert(layer_at(s, start) is None);
    let (t, q) = turn_at(s, start + 1);
    assert(turn_at(s2, start + 2) == (t, q + 1));
}

pub proof fn lemma_scan_advances(s: Seq<u8>, pos: int)
    ensures
        skip_ws_from(s, pos) >= pos,
        digits_end(s, pos) >= pos,
    decreases s.len() - pos,
{
    if 0 <= pos < s.len() {
        lemma_scan_advances(s, pos + 1);
    }
}

/// A move always consumes at least one byte.
pub proof fn lemma_token_advances(s: Seq<u8>, start: int, size: u8)
    ensures
        token_at(s, start, size) is Ok ==> token_at(s, start, size)->Ok_0.1 > start,
{
    lemma_scan_advances(s, start);
}

/// Prepend parsed moves to the result of parsing the rest.
pub open spec fn prepend(ms: Seq<Move>, r: Result<Seq<Move>, ParseError>) -> Result<Seq<Move>, ParseError> {
    match r {
        Ok(rest) => Ok(ms + rest),
        Err(e) => Err(e),
    }
}

/// The moves written from `pos` to the end, or the first error.
pub open spec fn parse_from(s: Seq<u8>, pos: int, size: u8) -> Result<Seq<Move>, ParseError>
    decreases s.len() - pos,
{
    let p = skip_ws_from(s, pos);
    if p < 0 || p >= s.len() {
        Ok(Seq::empty())
    } else {
        match token_at(s, p, size) {
            Err(e) => Err(e),
            Ok((m, q)) => {
                proof {
                    lemma_scan_advances(s, pos);
                    lemma_token_advances(s, p, size);
                }
                prepend(seq![m], parse_from(s, q, size))
            },
        }
    }
}

/// The moves a byte string describes.
pub open spec fn parse_spec(s: Seq<u8>, size: u8) -> Result<Seq<Move>, ParseError> {
    parse_from(s, 0, size)
}

// ---------------------------------------------------------------------
// The parser.
// ---------------------------------------------------------------------

struct Parser<'a> {
    src: &'a [u8],
    pos: usize,
    size: u8,
}

impl<'a> Parser<'a> {
    fn new(src: &'a str, size: u8) -> (r: Self)
        ensures
            r.src@ == src.spec_bytes(),
            r.pos == 0,
            r.size == size,
    {
        Self { src: src.as_bytes(), pos: 0, size }
    }

    fn eof(&self) -> (r: bool)
        ensures
            r == (self.pos >= self.src@.len()),
    {
        self.pos >= self.src.len()
    }

    fn peek(&self) -> (r: Option<u8>)
        ensures
            r == (if self.pos < self.src@.len() {
                Some(self.src@[self.pos as int])
            } else {
                None
            }),
    {
        if self.pos < self.src.len() {
            Some(self.src[self.pos])
        } else {
            None
        }
    }

    fn bump(&mut self) -> (r: Option<u8>)
        ensures
            final(self).src == old(self).src,
            final(self).size == old(self).size,
            match r {
                Some(c) => old(self).pos < old(self).src@.len() && c == old(self).src@[old(
                    self,
                ).pos as int] && final(self).pos == old(self).pos + 1,
                None => old(self).pos >= old(self).src@.len() && final(self).pos == old(self).pos,
            },
    {
        if self.pos < self.src.len() {
            let c = self.src[self.pos];
            self.pos = self.pos + 1;
            Some(c)
        } else {
            None
        }
    }

    fn skip_ws(&mut self)
        requires
            old(self).pos <= old(self).src@.len(),
        ensures
            final(self).src == old(self).src,
            final(self).size == old(self).size,
            final(self).pos == skip_ws_from(old(self).src@, old(self).pos as int),
            final(self).pos <= final(self).src@.len(),
    {
        while self.pos < self.src.len() && is_ascii_ws(self.src[self.pos])
            invariant
                self.src == old(self).src,
                self.size == old(self).size,
                self.pos <= self.src@.len(),
                skip_ws_from(self.src@, self.pos as int) == skip_ws_from(
                    old(self).src@,
                    old(self).pos as int,
                ),
            decreases self.src@.len() - self.pos,
        {
            self.pos = self.pos + 1;
        }
    }

    /// Read a run of digits; its value when it fits in a `u8`.
    fn read_layer_count(&mut self) -> (r: Option<u8>)
        requires
            old(self).pos <= old(self).src@.len(),
        ensures
            final(self).src == old(self).src,
            final(self).size == old(self).size,
            final(self).pos == digits_end(old(self).src@, old(self).pos as int),
            final(self).pos <= final(self).src@.len(),
            r == layer_at(old(self).src@, old(self).pos as int),
    {
        let start = self.pos;
        let ghost s = self.src@;
        let mut value: u32 = 0;
        let mut big = false;
        while self.pos < self.src.len() && is_ascii_digit(self.src[self.pos])
            invariant
                self.src == old(self).src,
                self.size == old(self).size,
                s == self.src@,
                start == old(self).pos,
                start <= self.pos <= self.src@.len(),
                digits_end(s, self.pos as int) == digits_end(s, start as int),
                big == (digits_value(s, start as int, self.pos as int) > 255),
                !big ==> value == digits_value(s, start as int, self.pos as int),
                value <= 255,
            decreases self.src@.len() - self.pos,
        {
            let d = (self.src[self.pos] - 48) as u32;
            proof {
                assert(digits_value(s, start as int, self.pos + 1) == digits_value(
                    s,
                    start as int,
                    self.pos as int,
                ) * 10 + d);
            }
            if !big {
                let next = value * 10 + d;
                if next > 255 {
                    big = true;
                } else {
                    value = next;
                }
            }
            self.pos = self.pos + 1;
        }
        if self.pos == start || big {
            None
        } else {
            Some(value as u8)
        }
    }

    fn read_turn_modifier(&mut self) -> (r: Turn)
        ensures
            final(self).src == old(self).src,
            final(self).size == old(self).size,
            (r, final(self).pos as int) == turn_at(old(self).src@, old(self).pos as int),
    {
        if self.pos < self.src.len() && self.src[self.pos] == 39 {
            self.pos = self.pos + 1;
            Turn::Ccw
        } else if self.pos < self.src.len() && self.src[self.pos] == 50 {
            self.pos = self.pos + 1;
            Turn::Half
        } else {
            Turn::Cw
        }
    }
}

impl<'a> Parser<'a> {
    /// Parse one move starting at the current position.
    fn parse_token(&mut self) -> (r: Result<Move, ParseError>)
        requires
            old(self).pos <= old(self).src@.len(),
        ensures
            final(self).src == old(self).src,
            final(self).size == old(self).size,
            final(self).pos <= final(self).src@.len(),
            match token_at(old(self).src@, old(self).pos as int, old(self).size) {
                Ok((m, q)) => r == Ok::<Move, ParseError>(m) && final(self).pos == q,
                Err(e) => r == Err::<Move, ParseError>(e),
            },
    {
        let ghost s = self.src@;
        let token_start = self.pos;
        let layer = self.read_layer_count();
        let c = match self.bump() {
            Some(c) => c,
            None => {
                return Err(ParseError::UnexpectedEnd);
            },
        };
        if c == 120 || c == 88 || c == 121 || c == 89 || c == 122 || c == 90 {
            if layer.is_some() {
                return Err(ParseError::UnexpectedChar(c as char, token_start));
            }
            let turn = self.read_turn_modifier();
            let rot = if c == 120 || c == 88 {
                CubeRotation::X(turn)
            } else if c == 121 || c == 89 {
                CubeRotation::Y(turn)
            } else {
                CubeRotation::Z(turn)
            };
            return Ok(rot.as_move(self.size));
        }
        let upper = c == 85 || c == 68 || c == 76 || c == 82 || c == 70 || c == 66;
        let lower = c == 117 || c == 100 || c == 108 || c == 114 || c == 102 || c == 98;
        let slice = c == 77 || c == 69 || c == 83;
        if !(upper || lower || slice) {
            return Err(ParseError::UnexpectedChar(c as char, self.pos - 1));
        }
        let (face, mut depth, mut wide): (Face, u8, bool) = if c == 85 {
            (Face::U, 1, false)
        } else if c == 68 {
            (Face::D, 1, false)
        } else if c == 76 {
            (Face::L, 1, false)
        } else if c == 82 {
            (Face::R, 1, false)
        } else if c == 70 {
            (Face::F, 1, false)
        } else if c == 66 {
            (Face::B, 1, false)
        } else if c == 117 {
            (Face::U, 2, true)
        } else if c == 100 {
            (Face::D, 2, true)
        } else if c == 108 {
            (Face::L, 2, true)
        } else if c == 114 {
            (Face::R, 2, true)
        } else if c == 102 {
            (Face::F, 2, true)
        } else if c == 98 {
            (Face::B, 2, true)
        } else if c == 77 {
            (Face::L, 2, false)
        } else if c == 69 {
            (Face::D, 2, false)
        } else {
            (Face::F, 2, false)
        };
        let mut saw_w = false;
        if upper && self.pos < self.src.len() && self.src[self.pos] == 119 {
            self.pos = self.pos + 1;
            wide = true;
            depth = 2;
            saw_w = true;
        }
        match layer {
            Some(d) => {
                if d == 0 {
                    return Err(ParseError::InvalidLayerCount(d));
                }
                if lower || slice {
                    return Err(ParseError::UnexpectedChar(c as char, token_start));
                }
                depth = d;
                if !saw_w {
                    wide = false;
                }
            },
            None => {},
        }
        let turn = self.read_turn_modifier();
        Ok(Move { face, turn, depth, wide })
    }
}

impl MoveSeq {
    /// Parse a WCA-style notation string for a cube of the given size.
    pub fn parse(input: &str, size: u8) -> (r: Result<Self, ParseError>)
        ensures
            match parse_spec(input.spec_bytes(), size) {
                Ok(ms) => r matches Ok(seq) && seq.0@ == ms,
                Err(e) => r == Err::<MoveSeq, ParseError>(e),
            },
    {
        let mut p = Parser::new(input, size);
        let ghost s = p.src@;
        let mut out: Vec<Move> = Vec::new();
        loop
            invariant_except_break
                s == p.src@,
                s == input.spec_bytes(),
                p.size == size,
                p.pos <= s.len(),
                parse_spec(s, size) == prepend(out@, parse_from(s, p.pos as int, size)),
            ensures
                parse_spec(s, size) == Ok::<Seq<Move>, ParseError>(out@),
            decreases s.len() - p.pos,
        {
            let ghost before = p.pos;
            p.skip_ws();
            if p.eof() {
                proof {
                    assert(parse_from(s, before as int, size) == Ok::<Seq<Move>, ParseError>(Seq::empty()));
                    assert(out@ + Seq::<Move>::empty() =~= out@);
                }
                break;
            }
            let m = match p.parse_token() {
                Ok(m) => m,
                Err(e) => {
                    return Err(e);
                },
            };
            proof {
                lemma_scan_advances(s, before as int);
                lemma_token_advances(s, skip_ws_from(s, before as int), size);
                let rest = parse_from(s, p.pos as int, size);
                match rest {
                    Ok(r) => {
                        assert(out@ + (seq![m] + r) =~= out@.push(m) + r);
                    },
                    Err(_) => {},
                }
            }
            out.push(m);
        }
        Ok(Self(out))
    }
}

fn is_ascii_ws(b: u8) -> (r: bool)
    ensures
        r == is_ws(b),
{
    b == 32 || b == 9 || b == 10 || b == 12 || b == 13
}

fn is_ascii_digit(b: u8) -> (r: bool)
    ensures
        r == is_digit(b),
{
    48 <= b && b <= 57
}

// ---------------------------------------------------------------------
// Printing.
// ---------------------------------------------------------------------

pub open spec fn digit_char(d: int) -> char {
    (48 + d) as char
}

/// Decimal digits of `n`.
pub open spec fn decimal(n: u8) -> Seq<char> {
    if n < 10 {
        seq![digit_char(n as int)]
    } else if n < 100 {
        seq![digit_char((n / 10) as int), digit_char((n % 10) as int)]
    } else {
        seq![
            digit_char((n / 100) as int),
            digit_char(((n / 10) % 10) as int),
            digit_char((n % 10) as int),
        ]
    }
}

pub open spec fn turn_suffix(t: Turn) -> Seq<char> {
    match t {
        Turn::Cw => Seq::empty(),
        Turn::Ccw => seq!['\''],
        Turn::Half => seq!['2'],
    }
}

/// Canonical notation of one move: a wide move of depth 1 prints as the
/// single-layer turn, depth-2 wide as `Rw`, deeper wide as `3Rw`, and an
/// inner single layer as `2R`.
pub open spec fn move_text(m: Move) -> Seq<char> {
    let f = face_symbol(m.face);
    let body = if m.wide && m.depth == 1 {
        seq![f]
    } else if m.wide && m.depth == 2 {
        seq![f, 'w']
    } else if m.wide {
        decimal(m.depth) + seq![f, 'w']
    } else if m.depth == 1 {
        seq![f]
    } else {
        decimal(m.depth) + seq![f]
    };
    body + turn_suffix(m.turn)
}

/// Moves printed in canonical notation, separated by single spaces.
pub open spec fn notation(s: Seq<Move>) -> Seq<char>
    decreases s.len(),
{
    if s.len() == 0 {
        Seq::empty()
    } else if s.len() == 1 {
        move_text(s[0])
    } else {
        notation(s.drop_last()) + seq![' '] + move_text(s.last())
    }
}

/// Append one character (`String::push`).
#[verifier::external_body]
pub(crate) fn push_char(s: &mut String, c: char)
    ensures
        final(s)@ == old(s)@.push(c),
{
    s.push(c);
}

fn push_digit(out: &mut String, d: u8)
    requires
        d < 10,
    ensures
        final(out)@ == old(out)@.push(digit_char(d as int)),
{
    push_char(out, (48 + d) as char);
}

fn push_u8(out: &mut String, n: u8)
    ensures
        final(out)@ == old(out)@ + decimal(n),
{
    if n < 10 {
        push_digit(out, n);
    } else if n < 100 {
        push_digit(out, n / 10);
        push_digit(out, n % 10);
    } else {
        push_digit(out, n / 100);
        push_digit(out, (n / 10) % 10);
        push_digit(out, n % 10);
    }
    proof {
        assert(final(out)@ =~= old(out)@ + decimal(n));
    }
}

fn format_move(m: &Move, out: &mut String)
    ensures
        final(out)@ == old(out)@ + move_text(*m),
{
    let face_char = m.face.symbol();
    if m.wide && m.depth == 1 {
        push_char(out, face_char);
    } else if m.wide && m.depth == 2 {
        push_char(out, face_char);
        push_char(out, 'w');
    } else if m.wide {
        push_u8(out, m.depth);
        push_char(out, face_char);
        push_char(out, 'w');
    } else if m.depth == 1 {
        push_char(out, face_char);
    } else {
        push_u8(out, m.depth);
        push_char(out, face_char);
    }
    match m.turn {
        Turn::Cw => {},
        Turn::Ccw => push_char(out, '\''),
        Turn::Half => push_char(out, '2'),
    }
    proof {
        assert(final(out)@ =~= old(out)@ + move_text(*m));
    }
}

impl MoveSeq {
    /// Canonical WCA notation, space-separated; it parses back to the same
    /// moves (see [`lemma_notation_round_trip`]).
    pub fn to_notation(&self) -> (r: String)
        ensures
            r@ == notation(self.0@),
    {
        let mut out = String::new();
        let mut i: usize = 0;
        while i < self.0.len()
            invariant
                i <= self.0@.len(),
                out@ == notation(self.0@.take(i as int)),
            decreases self.0@.len() - i,
        {
            proof {
                assert(self.0@.take(i + 1).drop_last() =~= self.0@.take(i as int));
            }
            if i > 0 {
                push_char(&mut out, ' ');
            }
            format_move(&self.0[i], &mut out);
            proof {
                if i == 0 {
                    assert(out@ =~= notation(self.0@.take(1)));
                } else {
                    assert(out@ =~= notation(self.0@.take(i + 1)));
                }
            }
            i = i + 1;
        }
        proof {
            assert(self.0@.take(i as int) =~= self.0@);
        }
        out
    }
}

// ---------------------------------------------------------------------
// Printing then parsing gives the moves back.
// ---------------------------------------------------------------------

pub open spec fn ascii_bytes(t: Seq<char>) -> Seq<u8> {
    t.map_values(|c: char| c as u8)
}

/// The move that notation denotes: a depth-1 wide turn is the plain turn.
pub open spec fn canonical_move(m: Move) -> Move {
    if m.depth == 1 {
        Move { face: m.face, turn: m.turn, depth: 1, wide: false }
    } else {
        m
    }
}

pub open spec fn turn_of_suffix(sfx: Seq<u8>) -> Turn {
    if sfx.len() == 0 {
        Turn::Cw
    } else if sfx[0] == 39 {
        Turn::Ccw
    } else {
        Turn::Half
    }
}

proof fn lemma_digits_end_prefix(b: Seq<u8>, d: Seq<u8>, i: int)
    requires
        0 <= i <= d.len(),
        d.len() < b.len(),
        forall|k: int| 0 <= k < d.len() ==> b[k] == d[k] && is_digit(d[k]),
        !is_digit(b[d.len() as int]),
    ensures
        digits_end(b, i) == d.len(),
    decreases d.len() - i,
{
    if i < d.len() {
        lemma_digits_end_prefix(b, d, i + 1);
    }
}

proof fn lemma_digits_value_prefix(b: Seq<u8>, d: Seq<u8>, i: int)
    requires
        0 <= i <= d.len(),
        d.len() <= b.len(),
        forall|k: int| 0 <= k < d.len() ==> b[k] == d[k],
    ensures
        digits_value(b, 0, i) == digits_value(d, 0, i),
    decreases i,
{
    if i > 0 {
        lemma_digits_value_prefix(b, d, i - 1);
    }
}

/// A token laid out as digits `d`, an upper-case face letter `fb`, an
/// optional `w` and an optional suffix, followed by a space or the end.
proof fn lemma_token_layout(b: Seq<u8>, d: Seq<u8>, fb: u8, has_w: bool, sfx: Seq<u8>, size: u8)
    requires
        d.len() <= 3,
        forall|k: int| 0 <= k < d.len() ==> b[k] == d[k] && is_digit(d[k]),
        d.len() > 0 ==> 1 <= digits_value(d, 0, d.len() as int) <= 255,
        is_upper_face(fb),
        sfx.len() == 0 || (sfx.len() == 1 && (sfx[0] == 39 || sfx[0] == 50)),
        b.len() >= d.len() + 1 + (if has_w { 1int } else { 0int }) + sfx.len(),
        b[d.len() as int] == fb,
        has_w ==> b[d.len() + 1int] == 119,
        sfx.len() == 1 ==> b[d.len() + 1 + (if has_w { 1int } else { 0int })] == sfx[0],
        ({
            let l = d.len() + 1 + (if has_w { 1int } else { 0int }) + sfx.len();
            l == b.len() || b[l] == 32
        }),
    ensures
        token_at(b, 0, size) == Ok::<(Move, int), ParseError>(
            (
                Move {
                    face: letter_move(fb).0,
                    turn: turn_of_suffix(sfx),
                    depth: if d.len() == 0 {
                        if has_w {
                            2u8
                        } else {
                            1u8
                        }
                    } else {
                        digits_value(d, 0, d.len() as int) as u8
                    },
                    wide: has_w,
                },
                d.len() + 1 + (if has_w { 1int } else { 0int }) + sfx.len(),
            ),
        ),
{
    lemma_digits_end_prefix(b, d, 0);
    lemma_digits_value_prefix(b, d, d.len() as int);
}

pub open spec fn face_byte(f: Face) -> u8 {
    match f {
        Face::U => 85,
        Face::D => 68,
        Face::L => 76,
        Face::R => 82,
        Face::F => 70,
        Face::B => 66,
    }
}

pub open spec fn suffix_bytes(t: Turn) -> Seq<u8> {
    match t {
        Turn::Cw => Seq::empty(),
        Turn::Ccw => seq![39u8],
        Turn::Half => seq![50u8],
    }
}

proof fn lemma_decimal_bytes(n: u8)
    requires
        n >= 1,
    ensures
        ({
            let d = ascii_bytes(decimal(n));
            &&& d.len() <= 3
            &&& forall|k: int| 0 <= k < d.len() ==> is_digit(#[trigger] d[k])
            &&& digits_value(d, 0, d.len() as int) == n
        }),
{
    let d = ascii_bytes(decimal(n));
    reveal_with_fuel(digits_value, 4);
    if n < 10 {
        assert(d[0] == 48 + n);
    } else if n < 100 {
        assert(d[0] == 48 + n / 10);
        assert(d[1] == 48 + n % 10);
    } else {
        assert(d[0] == 48 + n / 100);
        assert(d[1] == 48 + (n / 10) % 10);
        assert(d[2] == 48 + n % 10);
    }
}

/// A move's notation, followed by a space or the end, parses back as
/// its canonical form and consumes exactly its text.
#[verifier::spinoff_prover]
#[verifier::rlimit(40)]
proof fn lemma_token_of_text(m: Move, rest: Seq<u8>, size: u8)
    requires
        m.depth >= 1,
        rest.len() == 0 || rest[0] == 32,
    ensures
        token_at(ascii_bytes(move_text(m)) + rest, 0, size) == Ok::<(Move, int), ParseError>(
            (canonical_move(m), move_text(m).len() as int),
        ),
{
    let t = ascii_bytes(move_text(m));
    let b = t + rest;
    let fb = face_byte(m.face);
    let sfx = suffix_bytes(m.turn);
    assert(face_symbol(m.face) as u8 == fb);
    assert(ascii_bytes(turn_suffix(m.turn)) =~= sfx);
    let printed_digits = !(m.wide && m.depth <= 2) && m.depth != 1;
    let has_w = m.wide && m.depth != 1;
    let d = if printed_digits {
        ascii_bytes(decimal(m.depth))
    } else {
        Seq::empty()
    };
    if printed_digits {
        lemma_decimal_bytes(m.depth);
    }
    let w: Seq<u8> = if has_w {
        seq![119u8]
    } else {
        Seq::empty()
    };
    assert(t =~= d + seq![fb] + w + sfx);
    lemma_token_layout(b, d, fb, has_w, sfx, size);
}

/// A move's text is non-empty ASCII that starts with a digit or a letter.
proof fn lemma_move_text_ascii(m: Move)
    requires
        m.depth >= 1,
    ensures
        move_text(m).len() >= 1,
        !is_ws(ascii_bytes(move_text(m))[0]),
        is_ascii_chars(move_text(m)),
{
    let t = move_text(m);
    let printed_digits = !(m.wide && m.depth <= 2) && m.depth != 1;
    if printed_digits {
        lemma_decimal_bytes(m.depth);
        let dc = decimal(m.depth);
        let d = ascii_bytes(dc);
        assert forall|k: int| 0 <= k < dc.len() implies '\0' <= #[trigger] dc[k] <= '\u{7f}' by {
            assert(d[k] == dc[k] as u8);
            assert(is_digit(d[k]));
        }
        assert(is_digit(d[0]));
        assert(t[0] == dc[0]);
    }
}

// Parsing depends only on the bytes from the starting position on.

proof fn lemma_shift_scans(b: Seq<u8>, p: int, i: int)
    requires
        0 <= p <= b.len(),
        0 <= i,
    ensures
        skip_ws_from(b, p + i) == p + skip_ws_from(b.skip(p), i),
        digits_end(b, p + i) == p + digits_end(b.skip(p), i),
    decreases b.len() - p - i,
{
    if p + i < b.len() {
        lemma_shift_scans(b, p, i + 1);
    }
}

proof fn lemma_shift_digits_value(b: Seq<u8>, p: int, i: int, j: int)
    requires
        0 <= p <= b.len(),
        0 <= i,
        j <= b.len() - p,
    ensures
        digits_value(b, p + i, p + j) == digits_value(b.skip(p), i, j),
    decreases j - i,
{
    if i < j {
        lemma_shift_digits_value(b, p, i, j - 1);
    }
}

proof fn lemma_shift_token(b: Seq<u8>, p: int, i: int, size: u8)
    requires
        0 <= p <= b.len(),
        0 <= i,
    ensures
        match token_at(b.skip(p), i, size) {
            Ok((m, q)) => token_at(b, p + i, size) == Ok::<(Move, int), ParseError>((m, q + p)),
            Err(_) => token_at(b, p + i, size) is Err,
        },
{
    let c = b.skip(p);
    lemma_shift_scans(b, p, i);
    lemma_scan_advances(c, i);
    let e = digits_end(c, i);
    if i <= c.len() {
        lemma_digits_end_bounded(c, i);
        lemma_shift_digits_value(b, p, i, e);
    }
}

proof fn lemma_digits_end_bounded(s: Seq<u8>, pos: int)
    requires
        0 <= pos <= s.len(),
    ensures
        digits_end(s, pos) <= s.len(),
    decreases s.len() - pos,
{
    if pos < s.len() {
        lemma_digits_end_bounded(s, pos + 1);
    }
}

proof fn lemma_shift_parse(b: Seq<u8>, p: int, i: int, size: u8)
    requires
        0 <= p <= b.len(),
        0 <= i,
        parse_from(b.skip(p), i, size) is Ok,
    ensures
        parse_from(b, p + i, size) == parse_from(b.skip(p), i, size),
    decreases b.len() - p - i,
{
    let c = b.skip(p);
    lemma_shift_scans(b, p, i);
    lemma_scan_advances(c, i);
    let k = skip_ws_from(c, i);
    if 0 <= k < c.len() {
        lemma_shift_token(b, p, k, size);
        lemma_token_advances(c, k, size);
        let q = token_at(c, k, size)->Ok_0.1;
        lemma_shift_parse(b, p, q, size);
    }
}

/// Notation built from the front: first move, a space, the rest.
pub open spec fn front_notation(s: Seq<Move>) -> Seq<char>
    decreases s.len(),
{
    if s.len() == 0 {
        Seq::empty()
    } else if s.len() == 1 {
        move_text(s[0])
    } else {
        move_text(s[0]) + seq![' '] + front_notation(s.drop_first())
    }
}

proof fn lemma_front_snoc(s: Seq<Move>)
    requires
        s.len() >= 2,
    ensures
        front_notation(s) == front_notation(s.drop_last()) + seq![' '] + move_text(s.last()),
    decreases s.len(),
{
    let sp = seq![' '];
    if s.len() > 2 {
        let df = s.drop_first();
        let dl = s.drop_last();
        lemma_front_snoc(df);
        assert(df.drop_last() =~= dl.drop_first());
        assert(df.last() == s.last());
        assert(dl[0] == s[0]);
        let a = move_text(s[0]);
        let mid = front_notation(dl.drop_first());
        let z = move_text(s.last());
        assert(front_notation(df) == mid + sp + z);
        assert(front_notation(dl) == a + sp + mid);
        assert(front_notation(s) == a + sp + front_notation(df));
        assert(a + sp + (mid + sp + z) =~= (a + sp + mid) + sp + z);
        assert(front_notation(s) =~= front_notation(dl) + sp + z);
    } else {
        let df = s.drop_first();
        let dl = s.drop_last();
        assert(df.len() == 1 && df[0] == s.last());
        assert(dl.len() == 1 && dl[0] == s[0]);
        assert(front_notation(df) == move_text(s.last()));
        assert(front_notation(dl) == move_text(s[0]));
        assert(front_notation(s) == move_text(s[0]) + sp + front_notation(df));
    }
}

proof fn lemma_notation_front(s: Seq<Move>)
    ensures
        notation(s) == front_notation(s),
    decreases s.len(),
{
    if s.len() >= 2 {
        lemma_notation_front(s.drop_last());
        lemma_front_snoc(s);
    }
}

proof fn lemma_front_ascii(s: Seq<Move>)
    requires
        forall|k: int| 0 <= k < s.len() ==> (#[trigger] s[k]).depth >= 1,
    ensures
        is_ascii_chars(front_notation(s)),
    decreases s.len(),
{
    if s.len() == 1 {
        lemma_move_text_ascii(s[0]);
    } else if s.len() >= 2 {
        let tail = s.drop_first();
        assert forall|k: int| 0 <= k < tail.len() implies (#[trigger] tail[k]).depth >= 1 by {
            assert(tail[k] == s[k + 1]);
        }
        lemma_front_ascii(tail);
        lemma_move_text_ascii(s[0]);
        let fs = front_notation(s);
        let ft = front_notation(tail);
        let mt = move_text(s[0]);
        assert(fs =~= mt + seq![' '] + ft);
        assert forall|k: int| 0 <= k < fs.len() implies '\0' <= #[trigger] fs[k] <= '\u{7f}' by {
            if k < mt.len() {
                assert(fs[k] == mt[k]);
            } else if k > mt.len() {
                assert(fs[k] == ft[k - mt.len() - 1]);
            }
        }
    }
}

/// Parsing after a first token.
proof fn lemma_parse_step(b: Seq<u8>, m: Move, l: int, size: u8)
    requires
        b.len() > 0,
        !is_ws(b[0]),
        token_at(b, 0, size) == Ok::<(Move, int), ParseError>((m, l)),
    ensures
        parse_from(b, 0, size) == prepend(seq![m], parse_from(b, l, size)),
{
}

#[verifier::spinoff_prover]
#[verifier::rlimit(50)]
proof fn lemma_parse_front(s: Seq<Move>, size: u8)
    requires
        forall|k: int| 0 <= k < s.len() ==> (#[trigger] s[k]).depth >= 1,
    ensures
        parse_from(ascii_bytes(front_notation(s)), 0, size) == Ok::<Seq<Move>, ParseError>(
            s.map_values(|m: Move| canonical_move(m)),
        ),
    decreases s.len(),
{
    let canon = s.map_values(|m: Move| canonical_move(m));
    if s.len() == 0 {
        assert(canon =~= Seq::<Move>::empty());
    } else {
        let t = ascii_bytes(move_text(s[0]));
        let l = move_text(s[0]).len() as int;
        let c0 = canonical_move(s[0]);
        lemma_move_text_ascii(s[0]);
        if s.len() == 1 {
            let b = ascii_bytes(front_notation(s));
            lemma_token_of_text(s[0], Seq::empty(), size);
            assert(b =~= t + Seq::<u8>::empty());
            lemma_parse_step(b, c0, l, size);
            assert(parse_from(b, l, size) == Ok::<Seq<Move>, ParseError>(Seq::empty()));
            assert(canon =~= seq![c0] + Seq::<Move>::empty());
        } else {
            let tail = s.drop_first();
            assert forall|k: int| 0 <= k < tail.len() implies (#[trigger] tail[k]).depth >= 1 by {
                assert(tail[k] == s[k + 1]);
            }
            lemma_parse_front(tail, size);
            let tb = ascii_bytes(front_notation(tail));
            let rest = seq![32u8] + tb;
            let b = ascii_bytes(front_notation(s));
            lemma_token_of_text(s[0], rest, size);
            assert(b =~= t + rest);
            lemma_parse_step(b, c0, l, size);
            assert(b.skip(l + 1) =~= tb);
            assert(skip_ws_from(b, l) == skip_ws_from(b, l + 1));
            assert(parse_from(b, l, size) == parse_from(b, l + 1, size));
            lemma_shift_parse(b, l + 1, 0, size);
            let tail_canon = tail.map_values(|m: Move| canonical_move(m));
            assert(canon =~= seq![c0] + tail_canon);
        }
    }
}

/// Printing moves of positive depth in notation and parsing the text
/// gives the same moves back, with a depth-1 wide turn read as the plain
/// turn it equals.
pub proof fn lemma_notation_round_trip(s: Seq<Move>, size: u8)
    requires
        forall|k: int| 0 <= k < s.len() ==> (#[trigger] s[k]).depth >= 1,
    ensures
        parse_spec(encode_utf8(notation(s)), size) == Ok::<Seq<Move>, ParseError>(
            s.map_values(|m: Move| canonical_move(m)),
        ),
{
    lemma_notation_front(s);
    lemma_parse_front(s, size);
    lemma_front_ascii(s);
    let t = notation(s);
    is_ascii_chars_encode_utf8(t);
    assert(encode_utf8(t) =~= ascii_bytes(t));
}

} // verus!
