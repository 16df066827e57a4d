//! Starter algorithm library for the CFOP curriculum: a handful of
//! widely used OLL, PLL and F2L algorithms, plus two beginner last-layer
//! helpers.

use vstd::prelude::*;
use vstd::string::StringSliceAdditionalSpecFns;
use crate::moves::MoveSeq;
use crate::parser::parse_spec;

verus! {

#[derive(Debug, Clone, Copy, PartialEq, Eq, Structural)]
pub enum AlgFamily {
    Oll,
    Pll,
    F2l,
    /// Last-layer shorthand algorithms taught before the full set.
    Beginner,
}

#[derive(Debug, Clone, Copy)]
pub struct AlgEntry {
    /// Stable identifier for stats keying, such as `"oll-27-sune"`.
    pub id: &'static str,
    pub display_name: &'static str,
    pub family: AlgFamily,
    /// The algorithm in WCA notation.
    pub notation: &'static str,
}

/// The moves of an entry's notation on a 3×3, when it parses.
pub open spec fn entry_parses(e: AlgEntry) -> bool {
    parse_spec(e.notation.spec_bytes(), 3) is Ok
}

impl AlgEntry {
    /// The entry's notation parsed for a 3×3.
    pub fn parse(&self) -> (r: MoveSeq)
        requires
            entry_parses(*self),
        ensures
            parse_spec(self.notation.spec_bytes(), 3) == Ok::<Seq<crate::moves::Move>, crate::error::ParseError>(r.0@),
    {
        match MoveSeq::parse(self.notation, 3) {
            Ok(ms) => ms,
            Err(_) => {
                proof {
                    assert(false);
                }
                MoveSeq::new()
            },
        }
    }
}

/// The starter library, in order: OLL cases, PLL cases, F2L pair
/// insertions, beginner last-layer helpers.
pub open spec fn starter_library() -> Seq<AlgEntry> {
    seq![
        AlgEntry { id: "oll-27-sune", display_name: "Sune", family: AlgFamily::Oll, notation: "R U R' U R U2 R'" },
        AlgEntry { id: "oll-26-anti-sune", display_name: "Anti-Sune", family: AlgFamily::Oll, notation: "R U2 R' U' R U' R'" },
        AlgEntry { id: "oll-21-h", display_name: "OLL 21 (H)", family: AlgFamily::Oll, notation: "R U2 R' U' R U R' U' R U' R'" },
        AlgEntry { id: "oll-22-pi", display_name: "OLL 22 (Pi)", family: AlgFamily::Oll, notation: "R U2 R2 U' R2 U' R2 U2 R" },
        AlgEntry { id: "oll-33-t", display_name: "OLL 33 (T)", family: AlgFamily::Oll, notation: "R U R' U' R' F R F'" },
        AlgEntry { id: "oll-37-fish", display_name: "OLL 37 (Fish)", family: AlgFamily::Oll, notation: "F R' F' R U R U' R'" },
        AlgEntry { id: "oll-38", display_name: "OLL 38", family: AlgFamily::Oll, notation: "R U R' U R U' R' U' R' F R F'" },
        AlgEntry { id: "oll-44-p", display_name: "OLL 44 (P)", family: AlgFamily::Oll, notation: "F U R U' R' F'" },
        AlgEntry { id: "oll-45-t", display_name: "OLL 45 (T)", family: AlgFamily::Oll, notation: "F R U R' U' F'" },
        AlgEntry { id: "oll-48", display_name: "OLL 48", family: AlgFamily::Oll, notation: "F R U R' U' R U R' U' F'" },
        AlgEntry { id: "oll-51", display_name: "OLL 51", family: AlgFamily::Oll, notation: "F U R U' R' U R U' R' F'" },
        AlgEntry { id: "oll-56", display_name: "OLL 56", family: AlgFamily::Oll, notation: "R U R' U R U' R' U R U2 R'" },
        AlgEntry { id: "pll-aa", display_name: "Aa-perm", family: AlgFamily::Pll, notation: "x R' U R' D2 R U' R' D2 R2 x'" },
        AlgEntry { id: "pll-h", display_name: "H-perm", family: AlgFamily::Pll, notation: "M2 U M2 U2 M2 U M2" },
        AlgEntry { id: "pll-u-a", display_name: "U-perm (a)", family: AlgFamily::Pll, notation: "R U' R U R U R U' R' U' R2" },
        AlgEntry { id: "pll-u-b", display_name: "U-perm (b)", family: AlgFamily::Pll, notation: "R2 U R U R' U' R' U' R' U R'" },
        AlgEntry { id: "pll-ab", display_name: "Ab-perm", family: AlgFamily::Pll, notation: "x R2 D2 R U R' D2 R U' R x'" },
        AlgEntry { id: "pll-z", display_name: "Z-perm", family: AlgFamily::Pll, notation: "M2 U M2 U M' U2 M2 U2 M'" },
        AlgEntry { id: "pll-t", display_name: "T-perm", family: AlgFamily::Pll, notation: "R U R' U' R' F R2 U' R' U' R U R' F'" },
        AlgEntry { id: "pll-ja", display_name: "Ja-perm", family: AlgFamily::Pll, notation: "R' U L' U2 R U' R' U2 R L" },
        AlgEntry { id: "pll-jb", display_name: "Jb-perm", family: AlgFamily::Pll, notation: "R U R' F' R U R' U' R' F R2 U' R'" },
        AlgEntry { id: "pll-f", display_name: "F-perm", family: AlgFamily::Pll, notation: "R' U' F' R U R' U' R' F R2 U' R' U' R U R' U R" },
        AlgEntry { id: "pll-y", display_name: "Y-perm", family: AlgFamily::Pll, notation: "F R U' R' U' R U R' F' R U R' U' R' F R F'" },
        AlgEntry { id: "pll-v", display_name: "V-perm", family: AlgFamily::Pll, notation: "R' U R' U' y R' F' R2 U' R' U R' F R F y'" },
        AlgEntry { id: "pll-na", display_name: "Na-perm", family: AlgFamily::Pll, notation: "R U R' U R U R' F' R U R' U' R' F R2 U' R' U2 R U' R'" },
        AlgEntry { id: "pll-nb", display_name: "Nb-perm", family: AlgFamily::Pll, notation: "R' U R U' R' F' U' F R U R' F R' F' R U' R" },
        AlgEntry { id: "pll-e", display_name: "E-perm", family: AlgFamily::Pll, notation: "x' L' U L D' L' U' L D L' U' L D' L' U L D x" },
        AlgEntry { id: "pll-ra", display_name: "Ra-perm", family: AlgFamily::Pll, notation: "R U' R' U' R U R D R' U' R D' R' U2 R'" },
        AlgEntry { id: "pll-rb", display_name: "Rb-perm", family: AlgFamily::Pll, notation: "R' U2 R U2 R' F R U R' U' R' F' R2" },
        AlgEntry { id: "pll-ga", display_name: "Ga-perm", family: AlgFamily::Pll, notation: "R2 U R' U R' U' R U' R2 U' D R' U R D'" },
        AlgEntry { id: "pll-gb", display_name: "Gb-perm", family: AlgFamily::Pll, notation: "R' U' R U D' R2 U R' U R U' R U' R2 D" },
        AlgEntry { id: "pll-gc", display_name: "Gc-perm", family: AlgFamily::Pll, notation: "R2 U' R U' R U R' U R2 U D' R U' R' D" },
        AlgEntry { id: "pll-gd", display_name: "Gd-perm", family: AlgFamily::Pll, notation: "R U R' U' D R2 U' R U' R' U R' U R2 D'" },
        AlgEntry { id: "f2l-basic-pair-fr", display_name: "F2L FR pair (basic)", family: AlgFamily::F2l, notation: "U R U' R'" },
        AlgEntry { id: "f2l-basic-pair-fl", display_name: "F2L FL pair (basic)", family: AlgFamily::F2l, notation: "U' L' U L" },
        AlgEntry { id: "beginner-ll-corner-twist", display_name: "Beginner LL corner twist (Sune family)", family: AlgFamily::Beginner, notation: "R U R' U R U2 R'" },
        AlgEntry { id: "beginner-ll-edge-flip", display_name: "Beginner LL edge flip", family: AlgFamily::Beginner, notation: "F R U R' U' F'" }
    ]
}

/// The starter library.
pub fn starter_algs() -> (r: Vec<AlgEntry>)
    ensures
        r@ == starter_library(),
{
    let mut v: Vec<AlgEntry> = Vec::new();
    v.push(AlgEntry { id: "oll-27-sune", display_name: "Sune", family: AlgFamily::Oll, notation: "R U R' U R U2 R'" });
    v.push(AlgEntry { id: "oll-26-anti-sune", display_name: "Anti-Sune", family: AlgFamily::Oll, notation: "R U2 R' U' R U' R'" });
    v.push(AlgEntry { id: "oll-21-h", display_name: "OLL 21 (H)", family: AlgFamily::Oll, notation: "R U2 R' U' R U R' U' R U' R'" });
    v.push(AlgEntry { id: "oll-22-pi", display_name: "OLL 22 (Pi)", family: AlgFamily::Oll, notation: "R U2 R2 U' R2 U' R2 U2 R" });
    v.push(AlgEntry { id: "oll-33-t", display_name: "OLL 33 (T)", family: AlgFamily::Oll, notation: "R U R' U' R' F R F'" });
    v.push(AlgEntry { id: "oll-37-fish", display_name: "OLL 37 (Fish)", family: AlgFamily::Oll, notation: "F R' F' R U R U' R'" });
    v.push(AlgEntry { id: "oll-38", display_name: "OLL 38", family: AlgFamily::Oll, notation: "R U R' U R U' R' U' R' F R F'" });
    v.push(AlgEntry { id: "oll-44-p", display_name: "OLL 44 (P)", family: AlgFamily::Oll, notation: "F U R U' R' F'" });
    v.push(AlgEntry { id: "oll-45-t", display_name: "OLL 45 (T)", family: AlgFamily::Oll, notation: "F R U R' U' F'" });
    v.push(AlgEntry { id: "oll-48", display_name: "OLL 48", family: AlgFamily::Oll, notation: "F R U R' U' R U R' U' F'" });
    v.push(AlgEntry { id: "oll-51", display_name: "OLL 51", family: AlgFamily::Oll, notation: "F U R U' R' U R U' R' F'" });
    v.push(AlgEntry { id: "oll-56", display_name: "OLL 56", family: AlgFamily::Oll, notation: "R U R' U R U' R' U R U2 R'" });
    v.push(AlgEntry { id: "pll-aa", display_name: "Aa-perm", family: AlgFamily::Pll, notation: "x R' U R' D2 R U' R' D2 R2 x'" });
    v.push(AlgEntry { id: "pll-h", display_name: "H-perm", family: AlgFamily::Pll, notation: "M2 U M2 U2 M2 U M2" });
    v.push(AlgEntry { id: "pll-u-a", display_name: "U-perm (a)", family: AlgFamily::Pll, notation: "R U' R U R U R U' R' U' R2" });
    v.push(AlgEntry { id: "pll-u-b", display_name: "U-perm (b)", family: AlgFamily::Pll, notation: "R2 U R U R' U' R' U' R' U R'" });
    v.push(AlgEntry { id: "pll-ab", display_name: "Ab-perm", family: AlgFamily::Pll, notation: "x R2 D2 R U R' D2 R U' R x'" });
    v.push(AlgEntry { id: "pll-z", display_name: "Z-perm", family: AlgFamily::Pll, notation: "M2 U M2 U M' U2 M2 U2 M'" });
    v.push(AlgEntry { id: "pll-t", display_name: "T-perm", family: AlgFamily::Pll, notation: "R U R' U' R' F R2 U' R' U' R U R' F'" });
    v.push(AlgEntry { id: "pll-ja", display_name: "Ja-perm", family: AlgFamily::Pll, notation: "R' U L' U2 R U' R' U2 R L" });
    v.push(AlgEntry { id: "pll-jb", display_name: "Jb-perm", family: AlgFamily::Pll, notation: "R U R' F' R U R' U' R' F R2 U' R'" });
    v.push(AlgEntry { id: "pll-f", display_name: "F-perm", family: AlgFamily::Pll, notation: "R' U' F' R U R' U' R' F R2 U' R' U' R U R' U R" });
    v.push(AlgEntry { id: "pll-y", display_name: "Y-perm", family: AlgFamily::Pll, notation: "F R U' R' U' R U R' F' R U R' U' R' F R F'" });
    v.push(AlgEntry { id: "pll-v", display_name: "V-perm", family: AlgFamily::Pll, notation: "R' U R' U' y R' F' R2 U' R' U R' F R F y'" });
    v.push(AlgEntry { id: "pll-na", display_name: "Na-perm", family: AlgFamily::Pll, notation: "R U R' U R U R' F' R U R' U' R' F R2 U' R' U2 R U' R'" });
    v.push(AlgEntry { id: "pll-nb", display_name: "Nb-perm", family: AlgFamily::Pll, notation: "R' U R U' R' F' U' F R U R' F R' F' R U' R" });
    v.push(AlgEntry { id: "pll-e", display_name: "E-perm", family: AlgFamily::Pll, notation: "x' L' U L D' L' U' L D L' U' L D' L' U L D x" });
    v.push(AlgEntry { id: "pll-ra", display_name: "Ra-perm", family: AlgFamily::Pll, notation: "R U' R' U' R U R D R' U' R D' R' U2 R'" });
    v.push(AlgEntry { id: "pll-rb", display_name: "Rb-perm", family: AlgFamily::Pll, notation: "R' U2 R U2 R' F R U R' U' R' F' R2" });
    v.push(AlgEntry { id: "pll-ga", display_name: "Ga-perm", family: AlgFamily::Pll, notation: "R2 U R' U R' U' R U' R2 U' D R' U R D'" });
    v.push(AlgEntry { id: "pll-gb", display_name: "Gb-perm", family: AlgFamily::Pll, notation: "R' U' R U D' R2 U R' U R U' R U' R2 D" });
    v.push(AlgEntry { id: "pll-gc", display_name: "Gc-perm", family: AlgFamily::Pll, notation: "R2 U' R U' R U R' U R2 U D' R U' R' D" });
    v.push(AlgEntry { id: "pll-gd", display_name: "Gd-perm", family: AlgFamily::Pll, notation: "R U R' U' D R2 U' R U' R' U R' U R2 D'" });
    v.push(AlgEntry { id: "f2l-basic-pair-fr", display_name: "F2L FR pair (basic)", family: AlgFamily::F2l, notation: "U R U' R'" });
    v.push(AlgEntry { id: "f2l-basic-pair-fl", display_name: "F2L FL pair (basic)", family: AlgFamily::F2l, notation: "U' L' U L" });
    v.push(AlgEntry { id: "beginner-ll-corner-twist", display_name: "Beginner LL corner twist (Sune family)", family: AlgFamily::Beginner, notation: "R U R' U R U2 R'" });
    v.push(AlgEntry { id: "beginner-ll-edge-flip", display_name: "Beginner LL edge flip", family: AlgFamily::Beginner, notation: "F R U R' U' F'" });
    proof {
        assert(v@ =~= starter_library());
    }
    v
}

} // verus!
