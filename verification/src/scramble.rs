//! Random-move scrambles obeying the WCA rules: no two consecutive moves
//! on the same face, and no same-axis sandwich such as `R L R`.

use vstd::prelude::*;
use rand::seq::IndexedRandom;
use rand_chacha::ChaCha8Rng;
use crate::moves::{Face, Move, MoveSeq, Turn, face_axis};
use crate::cube::valid_move;

verus! {

#[verifier::external_type_specification]
#[verifier::external_body]
pub struct ExChaCha8Rng(ChaCha8Rng);

/// A uniformly chosen element of `items`, `None` when it is empty
/// (`rand::seq::IndexedRandom::choose`, which indexes the slice at
/// `rng.random_range(..len)`).
#[verifier::external_body]
pub(crate) fn choose_one<T: Copy>(items: &[T], rng: &mut ChaCha8Rng) -> (r: Option<T>)
    ensures
        r is None <==> items@.len() == 0,
        r is Some ==> items@.contains(r->Some_0),
{
    items.choose(rng).copied()
}

/// Default scramble length per cube size.
pub open spec fn default_length_spec(size: u8) -> usize {
    if size == 2 {
        11
    } else if size == 3 {
        25
    } else if size == 4 {
        40
    } else if size == 5 {
        60
    } else {
        0
    }
}

pub fn default_length(size: u8) -> (r: usize)
    ensures
        r == default_length_spec(size),
{
    match size {
        2 => 11,
        3 => 25,
        4 => 40,
        5 => 60,
        _ => 0,
    }
}

pub open spec fn scan_face_order(k: int) -> Face {
    if k == 0 {
        Face::U
    } else if k == 1 {
        Face::D
    } else if k == 2 {
        Face::L
    } else if k == 3 {
        Face::R
    } else if k == 4 {
        Face::F
    } else {
        Face::B
    }
}

/// Move templates used in scrambles: the six outer turns, and for sizes
/// of 4 and up also the six two-layer wide turns.
pub open spec fn alphabet_spec(size: u8) -> Seq<Move> {
    let outer = Seq::new(6, |k: int| Move { face: scan_face_order(k), turn: Turn::Cw, depth: 1, wide: false });
    if size >= 4 {
        outer + Seq::new(6, |k: int| Move { face: scan_face_order(k), turn: Turn::Cw, depth: 2, wide: true })
    } else {
        outer
    }
}

/// Index of `f` in the scan order `U D L R F B`.
pub open spec fn scan_index(f: Face) -> int {
    match f {
        Face::U => 0,
        Face::D => 1,
        Face::L => 2,
        Face::R => 3,
        Face::F => 4,
        Face::B => 5,
    }
}

/// The scramble templates of a size: a quarter turn of every outer face,
/// and for sizes of 4 and up a two-layer wide quarter turn of every face,
/// nothing else; and with no moves before, every template may be played.
pub proof fn lemma_alphabet_templates(size: u8)
    ensures
        alphabet_spec(size).len() == (if size >= 4 { 12int } else { 6int }),
        forall|f: Face| #[trigger] alphabet_spec(size).contains(Move { face: f, turn: Turn::Cw, depth: 1, wide: false }),
        forall|f: Face|
            #[trigger] alphabet_spec(size).contains(Move { face: f, turn: Turn::Cw, depth: 2, wide: true }) <==> size
                >= 4,
        forall|m: Move|
            #[trigger] alphabet_spec(size).contains(m) ==> m.turn == Turn::Cw && ((m.depth == 1 && !m.wide) || (size
                >= 4 && m.depth == 2 && m.wide)),
        forall|m: Move| #[trigger] alphabet_spec(size).contains(m) ==> candidates_spec(size, Seq::empty()).contains(m),
{
    let a = alphabet_spec(size);
    assert forall|f: Face| #[trigger] a.contains(Move { face: f, turn: Turn::Cw, depth: 1, wide: false }) by {
        assert(a[scan_index(f)] == Move { face: f, turn: Turn::Cw, depth: 1, wide: false });
    }
    assert forall|f: Face|
        #[trigger] a.contains(Move { face: f, turn: Turn::Cw, depth: 2, wide: true }) <==> size >= 4 by {
        if size >= 4 {
            assert(a[6 + scan_index(f)] == Move { face: f, turn: Turn::Cw, depth: 2, wide: true });
        } else {
            if a.contains(Move { face: f, turn: Turn::Cw, depth: 2, wide: true }) {
                let i = choose|i: int| 0 <= i < a.len() && a[i] == Move { face: f, turn: Turn::Cw, depth: 2, wide: true };
                assert(a[i].depth == 1);
            }
        }
    }
    assert forall|m: Move| #[trigger] a.contains(m) implies m.turn == Turn::Cw && ((m.depth == 1 && !m.wide) || (size
        >= 4 && m.depth == 2 && m.wide)) by {
        let i = choose|i: int| 0 <= i < a.len() && a[i] == m;
        if i >= 6 {
            assert(size >= 4);
        }
    }
    assert forall|m: Move| #[trigger] a.contains(m) implies candidates_spec(size, Seq::empty()).contains(m) by {
        let pred = |x: Move| may_follow(Seq::<Move>::empty(), x);
        assert(pred(m));
    }
}

/// A template may follow `moves`: not on the last move's face, and not on
/// the last move's axis when the last two moves share an axis.
pub open spec fn may_follow(moves: Seq<Move>, m: Move) -> bool {
    &&& (moves.len() == 0 || m.face != moves.last().face)
    &&& !(moves.len() >= 2 && face_axis(moves[moves.len() - 1].face) == face_axis(
        moves[moves.len() - 2].face,
    ) && face_axis(m.face) == face_axis(moves.last().face))
}

/// Templates allowed after `moves`, in alphabet order.
pub open spec fn candidates_spec(size: u8, moves: Seq<Move>) -> Seq<Move> {
    alphabet_spec(size).filter(|m: Move| may_follow(moves, m))
}

/// Every move of `ms` is an allowed template, with any turn, after the
/// moves before it.
#[verifier::opaque]
pub open spec fn valid_scramble(ms: Seq<Move>, size: u8) -> bool {
    forall|i: int|
        0 <= i < ms.len() ==> candidates_spec(size, ms.take(i)).contains(
            Move { face: ms[i].face, turn: Turn::Cw, depth: ms[i].depth, wide: ms[i].wide },
        )
}

fn face_of_order(k: usize) -> (r: Face)
    ensures
        r == scan_face_order(k as int),
{
    if k == 0 {
        Face::U
    } else if k == 1 {
        Face::D
    } else if k == 2 {
        Face::L
    } else if k == 3 {
        Face::R
    } else if k == 4 {
        Face::F
    } else {
        Face::B
    }
}

/// Distinct (face, depth, wide) move templates used in scrambles for `size`.
pub fn scramble_alphabet(size: u8) -> (r: Vec<Move>)
    ensures
        r@ == alphabet_spec(size),
{
    let mut out: Vec<Move> = Vec::new();
    let mut k: usize = 0;
    while k < 6
        invariant
            k <= 6,
            out@ =~= alphabet_spec(0).take(k as int),
        decreases 6 - k,
    {
        out.push(Move::face(face_of_order(k), Turn::Cw));
        k = k + 1;
    }
    if size >= 4 {
        let mut k: usize = 0;
        while k < 6
            invariant
                k <= 6,
                out@ =~= alphabet_spec(0) + alphabet_spec(4).skip(6).take(k as int),
            decreases 6 - k,
        {
            out.push(Move { face: face_of_order(k), turn: Turn::Cw, depth: 2, wide: true });
            k = k + 1;
        }
        proof {
            assert(out@ =~= alphabet_spec(size));
        }
    } else {
        proof {
            assert(out@ =~= alphabet_spec(size));
        }
    }
    out
}

/// The templates allowed after `moves`, in alphabet order.
pub fn scramble_candidates(size: u8, moves: &Vec<Move>) -> (r: Vec<Move>)
    ensures
        r@ == candidates_spec(size, moves@),
{
    let alphabet = scramble_alphabet(size);
    let len = moves.len();
    let ghost pred = |m: Move| may_follow(moves@, m);
    let mut out: Vec<Move> = Vec::new();
    let mut k: usize = 0;
    while k < alphabet.len()
        invariant
            alphabet@ == alphabet_spec(size),
            len == moves@.len(),
            pred == (|m: Move| may_follow(moves@, m)),
            k <= alphabet@.len(),
            out@ == alphabet@.take(k as int).filter(pred),
        decreases alphabet@.len() - k,
    {
        let m = alphabet[k];
        let mut ok = true;
        if len >= 1 && m.face == moves[len - 1].face {
            ok = false;
        }
        if len >= 2 && moves[len - 1].face.axis() == moves[len - 2].face.axis() && m.face.axis()
            == moves[len - 1].face.axis() {
            ok = false;
        }
        proof {
            assert(ok == may_follow(moves@, m));
            assert(alphabet@.take(k + 1).drop_last() =~= alphabet@.take(k as int));
            reveal(Seq::filter);
        }
        if ok {
            out.push(m);
        }
        k = k + 1;
    }
    proof {
        assert(alphabet@.take(k as int) =~= alphabet@);
    }
    out
}

/// Some template is always allowed: any outer turn on another axis.
proof fn lemma_candidates_nonempty(size: u8, moves: Seq<Move>)
    ensures
        candidates_spec(size, moves).len() > 0,
{
    let alpha = alphabet_spec(size);
    let pred = |m: Move| may_follow(moves, m);
    let k: int = if moves.len() > 0 && face_axis(moves.last().face) == 1 {
        3
    } else {
        0
    };
    assert(pred(alpha[k]));
    alpha.lemma_filter_contains(pred, k);
}

/// Every allowed template is an alphabet entry with a clockwise turn.
proof fn lemma_candidate_facts(size: u8, moves: Seq<Move>, c: Move)
    requires
        candidates_spec(size, moves).contains(c),
    ensures
        c.turn == Turn::Cw,
        may_follow(moves, c),
        1 <= c.depth,
        c.depth == 1 || (c.depth == 2 && size >= 4),
{
    let alpha = alphabet_spec(size);
    let pred = |m: Move| may_follow(moves, m);
    alpha.lemma_filter_contains_rev(pred, c);
    let j = choose|j: int| 0 <= j < alpha.len() && alpha[j] == c;
    let i = choose|i: int| 0 <= i < alpha.filter(pred).len() && alpha.filter(pred)[i] == c;
    alpha.lemma_filter_pred(pred, i);
}

proof fn lemma_scramble_at(ms: Seq<Move>, size: u8, i: int)
    requires
        valid_scramble(ms, size),
        0 <= i < ms.len(),
    ensures
        i >= 1 ==> ms[i].face != ms[i - 1].face,
        i >= 2 && face_axis(ms[i - 1].face) == face_axis(ms[i - 2].face) ==> face_axis(ms[i].face)
            != face_axis(ms[i - 1].face),
        size >= 2 ==> valid_move(ms[i], size as int),
{
    let c = Move { face: ms[i].face, turn: Turn::Cw, depth: ms[i].depth, wide: ms[i].wide };
    reveal(valid_scramble);
    assert(candidates_spec(size, ms.take(i)).contains(c));
    lemma_candidate_facts(size, ms.take(i), c);
    if i >= 1 {
        assert(ms.take(i).last() == ms[i - 1]);
    }
    if i >= 2 {
        assert(ms.take(i)[i - 2] == ms[i - 2]);
    }
}

/// Move `i` is on a different face than move `i - 1`.
pub open spec fn new_face_at(ms: Seq<Move>, i: int) -> bool {
    ms[i].face != ms[i - 1].face
}

/// Moves `i - 2, i - 1, i` do not form a same-axis sandwich.
pub open spec fn no_sandwich_at(ms: Seq<Move>, i: int) -> bool {
    face_axis(ms[i - 1].face) == face_axis(ms[i - 2].face) ==> face_axis(ms[i].face) != face_axis(
        ms[i - 1].face,
    )
}

/// The rules a scramble obeys: no two consecutive moves on one face, no
/// same-axis sandwich, and every move fits a cube of that size.
pub proof fn lemma_scramble_rules(ms: Seq<Move>, size: u8)
    requires
        valid_scramble(ms, size),
    ensures
        forall|i: int| 1 <= i < ms.len() ==> #[trigger] new_face_at(ms, i),
        forall|i: int| 2 <= i < ms.len() ==> #[trigger] no_sandwich_at(ms, i),
        size >= 2 ==> forall|i: int| 0 <= i < ms.len() ==> valid_move(#[trigger] ms[i], size as int),
{
    assert forall|i: int| 1 <= i < ms.len() implies #[trigger] new_face_at(ms, i) by {
        lemma_scramble_at(ms, size, i);
    }
    assert forall|i: int| 2 <= i < ms.len() implies #[trigger] no_sandwich_at(ms, i) by {
        lemma_scramble_at(ms, size, i);
    }
    if size >= 2 {
        assert forall|i: int| 0 <= i < ms.len() implies valid_move(#[trigger] ms[i], size as int) by {
            lemma_scramble_at(ms, size, i);
        }
    }
}

/// A random-move scramble of `length` moves: each move is drawn from the
/// templates allowed after the moves before it, with a random turn.
pub fn random_move_scramble(size: u8, length: usize, rng: &mut ChaCha8Rng) -> (r: MoveSeq)
    ensures
        r.0@.len() == length,
        valid_scramble(r.0@, size),
{
    let turns: Vec<Turn> = vec![Turn::Cw, Turn::Ccw, Turn::Half];
    let mut moves: Vec<Move> = Vec::new();
    proof {
        reveal(valid_scramble);
    }
    while moves.len() < length
        invariant
            moves@.len() <= length,
            valid_scramble(moves@, size),
            turns@ == seq![Turn::Cw, Turn::Ccw, Turn::Half],
        decreases length - moves@.len(),
    {
        let candidates = scramble_candidates(size, &moves);
        proof {
            lemma_candidates_nonempty(size, moves@);
        }
        let chosen = match choose_one(candidates.as_slice(), rng) {
            Some(c) => c,
            None => {
                proof {
                    assert(false);
                }
                Move::face(Face::U, Turn::Cw)
            },
        };
        let turn = match choose_one(turns.as_slice(), rng) {
            Some(t) => t,
            None => Turn::Cw,
        };
        let m = Move { face: chosen.face, turn, depth: chosen.depth, wide: chosen.wide };
        let ghost before = moves@;
        proof {
            lemma_candidate_facts(size, before, chosen);
        }
        moves.push(m);
        proof {
            reveal(valid_scramble);
            assert forall|i: int| 0 <= i < moves@.len() implies candidates_spec(size, moves@.take(i)).contains(
                Move { face: moves@[i].face, turn: Turn::Cw, depth: moves@[i].depth, wide: moves@[i].wide },
            ) by {
                if i < before.len() {
                    assert(moves@.take(i) =~= before.take(i));
                    assert(moves@[i] == before[i]);
                } else {
                    assert(moves@.take(i) =~= before);
                    assert(Move { face: moves@[i].face, turn: Turn::Cw, depth: moves@[i].depth, wide: moves@[i].wide } == chosen);
                }
            }
        }
    }
    MoveSeq(moves)
}

/// A scramble of the default length for the cube size.
pub fn wca_scramble(size: u8, rng: &mut ChaCha8Rng) -> (r: MoveSeq)
    ensures
        r.0@.len() == default_length_spec(size),
        valid_scramble(r.0@, size),
{
    random_move_scramble(size, default_length(size), rng)
}

} // verus!
