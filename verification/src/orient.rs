//! The 24-element chiral octahedral rotation group: every rotation that maps
//! a cube to itself, as 3x3 signed-permutation matrices with determinant +1.
//!
//! An [`Orient`] is an index `0..24` into a fixed enumeration of the group:
//! for each of the six axis permutations in lexicographic order, the four
//! sign patterns of determinant +1 ordered by the first two signs, with the
//! identity swapped to index 0. The matrix data of an index is computed
//! arithmetically, and composition / inversion go through the data.

use vstd::prelude::*;
use crate::vec3::{IVec3, bounded, comp, ivec};

verus! {

/// A single rotation element: for each output axis `i`, the input axis it
/// draws from (`out_from[i]`) and a sign (`out_sign[i]`).
#[derive(Debug, Clone, Copy, PartialEq, Eq, Hash)]
pub struct OrientData {
    pub out_from: [u8; 3],
    pub out_sign: [i8; 3],
}

/// Abstract rotation: `(from0, from1, from2, sign0, sign1, sign2)`.
pub type Rot = (int, int, int, int, int, int);

pub open spec fn od(d: OrientData) -> Rot {
    (
        d.out_from@[0] as int,
        d.out_from@[1] as int,
        d.out_from@[2] as int,
        d.out_sign@[0] as int,
        d.out_sign@[1] as int,
        d.out_sign@[2] as int,
    )
}

pub open spec fn rot_from(r: Rot, k: int) -> int {
    if k == 0 {
        r.0
    } else if k == 1 {
        r.1
    } else {
        r.2
    }
}

pub open spec fn rot_sign(r: Rot, k: int) -> int {
    if k == 0 {
        r.3
    } else if k == 1 {
        r.4
    } else {
        r.5
    }
}

/// Product of two signs in `{-1, 1}`.
pub open spec fn sgn_mul(a: int, b: int) -> int {
    if a == b {
        1
    } else {
        -1
    }
}

pub open spec fn is_sign(s: int) -> bool {
    s == 1 || s == -1
}

/// Sign of a permutation of `{0, 1, 2}`.
pub open spec fn perm_sign(a: int, b: int, c: int) -> int {
    if (a < b && b < c) || (b < c && c < a) || (c < a && a < b) {
        1
    } else {
        -1
    }
}

pub open spec fn is_perm3(a: int, b: int, c: int) -> bool {
    0 <= a < 3 && 0 <= b < 3 && 0 <= c < 3 && a != b && b != c && a != c
}

/// A signed permutation with determinant +1.
pub open spec fn is_rot(r: Rot) -> bool {
    &&& is_perm3(r.0, r.1, r.2)
    &&& is_sign(r.3) && is_sign(r.4) && is_sign(r.5)
    &&& sgn_mul(sgn_mul(r.3, r.4), r.5) == perm_sign(r.0, r.1, r.2)
}

pub open spec fn id_rot() -> Rot {
    (0, 1, 2, 1, 1, 1)
}

/// Matrix product `a * b`: applying it equals applying `b`, then `a`.
pub open spec fn compose_rot(a: Rot, b: Rot) -> Rot {
    (
        rot_from(b, a.0),
        rot_from(b, a.1),
        rot_from(b, a.2),
        sgn_mul(a.3, rot_sign(b, a.0)),
        sgn_mul(a.4, rot_sign(b, a.1)),
        sgn_mul(a.5, rot_sign(b, a.2)),
    )
}

/// The output axis `k` with `rot_from(r, k) == j`.
pub open spec fn inv_from(r: Rot, j: int) -> int {
    if r.0 == j {
        0
    } else if r.1 == j {
        1
    } else {
        2
    }
}

pub open spec fn inverse_rot(r: Rot) -> Rot {
    (
        inv_from(r, 0),
        inv_from(r, 1),
        inv_from(r, 2),
        rot_sign(r, inv_from(r, 0)),
        rot_sign(r, inv_from(r, 1)),
        rot_sign(r, inv_from(r, 2)),
    )
}

pub open spec fn signed(s: int, c: int) -> int {
    if s == 1 {
        c
    } else {
        -c
    }
}

/// The rotation applied to a lattice vector.
pub open spec fn apply_rot(r: Rot, v: IVec3) -> IVec3 {
    ivec(
        signed(r.3, comp(v, r.0)),
        signed(r.4, comp(v, r.1)),
        signed(r.5, comp(v, r.2)),
    )
}

/// Lexicographic rank of a permutation of `{0, 1, 2}`.
pub open spec fn perm_rank(a: int, b: int, c: int) -> int {
    if a == 0 {
        if b == 1 {
            0
        } else {
            1
        }
    } else if a == 1 {
        if b == 0 {
            2
        } else {
            3
        }
    } else {
        if b == 0 {
            4
        } else {
            5
        }
    }
}

/// The permutation of lexicographic rank `p`, as `(first, second, third)`.
pub open spec fn perm_at(p: int) -> (int, int, int) {
    if p == 0 {
        (0, 1, 2)
    } else if p == 1 {
        (0, 2, 1)
    } else if p == 2 {
        (1, 0, 2)
    } else if p == 3 {
        (1, 2, 0)
    } else if p == 4 {
        (2, 0, 1)
    } else {
        (2, 1, 0)
    }
}

/// Exchange of positions 0 and 3 that puts the identity first.
pub open spec fn swap03(i: int) -> int {
    if i == 0 {
        3
    } else if i == 3 {
        0
    } else {
        i
    }
}

/// The rotation stored at index `i` of the enumeration.
pub open spec fn rot_of(i: int) -> Rot {
    let raw = swap03(i);
    let p = perm_at(raw / 4);
    let k = raw % 4;
    let s0 = if k >= 2 {
        1int
    } else {
        -1int
    };
    let s1 = if k % 2 == 1 {
        1int
    } else {
        -1int
    };
    (p.0, p.1, p.2, s0, s1, sgn_mul(sgn_mul(perm_sign(p.0, p.1, p.2), s0), s1))
}

/// Position of a rotation in the enumeration.
pub open spec fn rot_index(r: Rot) -> int {
    swap03(
        perm_rank(r.0, r.1, r.2) * 4 + (if r.3 == 1 {
            2int
        } else {
            0int
        }) + (if r.4 == 1 {
            1int
        } else {
            0int
        }),
    )
}

/// Index-level composition.
pub open spec fn compose_idx(a: int, b: int) -> int {
    rot_index(compose_rot(rot_of(a), rot_of(b)))
}

/// Index-level inverse.
pub open spec fn inverse_idx(a: int) -> int {
    rot_index(inverse_rot(rot_of(a)))
}

// ---- Enumeration lemmas ----

proof fn lemma_rot_of_is_rot(i: int)
    requires
        0 <= i < 24,
    ensures
        is_rot(rot_of(i)),
        rot_index(rot_of(i)) == i,
{
}

proof fn lemma_rot_index_round_trip(r: Rot)
    requires
        is_rot(r),
    ensures
        0 <= rot_index(r) < 24,
        rot_of(rot_index(r)) == r,
{
}

proof fn lemma_compose_closed(a: Rot, b: Rot)
    requires
        is_rot(a),
        is_rot(b),
    ensures
        is_rot(compose_rot(a, b)),
{
    let c = compose_rot(a, b);
    assert(is_perm3(c.0, c.1, c.2));
    assert(sgn_mul(sgn_mul(c.3, c.4), c.5) == perm_sign(c.0, c.1, c.2)) by {
        let pa = perm_rank(a.0, a.1, a.2);
        let pb = perm_rank(b.0, b.1, b.2);
        assert(perm_at(pa) == (a.0, a.1, a.2));
        assert(perm_at(pb) == (b.0, b.1, b.2));
        assert(0 <= pa < 6 && 0 <= pb < 6);
    }
}

proof fn lemma_inverse_closed(a: Rot)
    requires
        is_rot(a),
    ensures
        is_rot(inverse_rot(a)),
        compose_rot(a, inverse_rot(a)) == id_rot(),
        compose_rot(inverse_rot(a), a) == id_rot(),
{
    let pa = perm_rank(a.0, a.1, a.2);
    assert(perm_at(pa) == (a.0, a.1, a.2));
}

proof fn lemma_compose_assoc(a: Rot, b: Rot, c: Rot)
    requires
        is_rot(a),
        is_rot(b),
        is_rot(c),
    ensures
        compose_rot(compose_rot(a, b), c) == compose_rot(a, compose_rot(b, c)),
{
}

proof fn lemma_compose_identity(a: Rot)
    requires
        is_rot(a),
    ensures
        compose_rot(a, id_rot()) == a,
        compose_rot(id_rot(), a) == a,
{
}

proof fn lemma_apply_compose(a: Rot, b: Rot, v: IVec3)
    requires
        is_rot(a),
        is_rot(b),
        bounded(v, 0x7fff_ffff),
    ensures
        apply_rot(compose_rot(a, b), v) == apply_rot(a, apply_rot(b, v)),
{
}

// ---- Index-level group laws ----

/// Every index below 24 names a signed permutation of determinant +1.
pub proof fn lemma_rot_is_rot(i: int)
    requires
        0 <= i < 24,
    ensures
        is_rot(rot_of(i)),
{
    lemma_rot_of_is_rot(i);
}

/// Composition stays in the group.
pub proof fn lemma_compose_idx_in_group(a: int, b: int)
    requires
        0 <= a < 24,
        0 <= b < 24,
    ensures
        0 <= compose_idx(a, b) < 24,
        rot_of(compose_idx(a, b)) == compose_rot(rot_of(a), rot_of(b)),
{
    lemma_rot_of_is_rot(a);
    lemma_rot_of_is_rot(b);
    lemma_compose_closed(rot_of(a), rot_of(b));
    lemma_rot_index_round_trip(compose_rot(rot_of(a), rot_of(b)));
}

/// The inverse stays in the group.
pub proof fn lemma_inverse_idx_in_group(a: int)
    requires
        0 <= a < 24,
    ensures
        0 <= inverse_idx(a) < 24,
        rot_of(inverse_idx(a)) == inverse_rot(rot_of(a)),
{
    lemma_rot_of_is_rot(a);
    lemma_inverse_closed(rot_of(a));
    lemma_rot_index_round_trip(inverse_rot(rot_of(a)));
}

/// Index 0 is the identity of composition.
pub proof fn lemma_identity_law(a: int)
    requires
        0 <= a < 24,
    ensures
        compose_idx(a, 0) == a,
        compose_idx(0, a) == a,
        rot_of(0) == id_rot(),
{
    lemma_rot_of_is_rot(a);
    lemma_compose_identity(rot_of(a));
}

/// `a * a⁻¹ = a⁻¹ * a = identity`.
pub proof fn lemma_inverse_law(a: int)
    requires
        0 <= a < 24,
    ensures
        compose_idx(a, inverse_idx(a)) == 0,
        compose_idx(inverse_idx(a), a) == 0,
        inverse_idx(inverse_idx(a)) == a,
{
    lemma_rot_of_is_rot(a);
    lemma_inverse_idx_in_group(a);
    lemma_inverse_closed(rot_of(a));
    let ia = inverse_idx(a);
    lemma_inverse_idx_in_group(ia);
    lemma_inverse_closed(rot_of(ia));
    lemma_rot_of_is_rot(ia);
    // a⁻¹⁻¹ is the unique right inverse of a⁻¹, which is a.
    lemma_compose_assoc(rot_of(a), rot_of(ia), inverse_rot(rot_of(ia)));
    lemma_compose_identity(rot_of(a));
    lemma_compose_identity(inverse_rot(rot_of(ia)));
}

/// Composition is associative.
pub proof fn lemma_assoc_law(a: int, b: int, c: int)
    requires
        0 <= a < 24,
        0 <= b < 24,
        0 <= c < 24,
    ensures
        compose_idx(compose_idx(a, b), c) == compose_idx(a, compose_idx(b, c)),
{
    lemma_rot_of_is_rot(a);
    lemma_rot_of_is_rot(b);
    lemma_rot_of_is_rot(c);
    lemma_compose_idx_in_group(a, b);
    lemma_compose_idx_in_group(b, c);
    lemma_compose_assoc(rot_of(a), rot_of(b), rot_of(c));
}

/// Applying a composition is applying its factors right to left.
pub proof fn lemma_apply_compose_law(a: int, b: int, v: IVec3)
    requires
        0 <= a < 24,
        0 <= b < 24,
        bounded(v, 0x7fff_ffff),
    ensures
        apply_rot(rot_of(compose_idx(a, b)), v) == apply_rot(rot_of(a), apply_rot(rot_of(b), v)),
{
    lemma_compose_idx_in_group(a, b);
    lemma_rot_of_is_rot(a);
    lemma_rot_of_is_rot(b);
    lemma_apply_compose(rot_of(a), rot_of(b), v);
}

/// A rotation keeps the bound on the largest component.
pub proof fn lemma_apply_bounded(a: int, v: IVec3, bound: int)
    requires
        0 <= a < 24,
        bounded(v, bound),
        0 <= bound <= 0x7fff_ffff,
    ensures
        bounded(apply_rot(rot_of(a), v), bound),
{
    lemma_rot_of_is_rot(a);
}

/// Applying the inverse undoes a rotation.
pub proof fn lemma_apply_inverse(a: int, v: IVec3)
    requires
        0 <= a < 24,
        bounded(v, 0x7fff_ffff),
    ensures
        apply_rot(rot_of(inverse_idx(a)), apply_rot(rot_of(a), v)) == v,
{
    lemma_inverse_law(a);
    lemma_inverse_idx_in_group(a);
    lemma_apply_compose_law(inverse_idx(a), a, v);
    lemma_identity_law(a);
}

/// Element of the cube rotation group, encoded as an index `0..24`.
#[derive(Debug, Clone, Copy, PartialEq, Eq, Hash, Structural)]
pub struct Orient(pub u8);

impl OrientData {
    /// The identity rotation.
    pub fn identity() -> (r: Self)
        ensures
            od(r) == id_rot(),
    {
        Self { out_from: [0, 1, 2], out_sign: [1, 1, 1] }
    }

    /// Apply this rotation to a vector.
    pub fn apply(&self, v: IVec3) -> (r: IVec3)
        requires
            self.out_from@[0] < 3 && self.out_from@[1] < 3 && self.out_from@[2] < 3,
            is_sign(self.out_sign@[0] as int) && is_sign(self.out_sign@[1] as int) && is_sign(
                self.out_sign@[2] as int,
            ),
            bounded(v, 0x7fff_ffff),
        ensures
            r == apply_rot(od(*self), v),
    {
        let arr = [v.x, v.y, v.z];
        let a = arr[self.out_from[0] as usize];
        let b = arr[self.out_from[1] as usize];
        let c = arr[self.out_from[2] as usize];
        IVec3 {
            x: if self.out_sign[0] == 1 { a } else { -a },
            y: if self.out_sign[1] == 1 { b } else { -b },
            z: if self.out_sign[2] == 1 { c } else { -c },
        }
    }

    /// Matrix product `a * b`: applying `compose(a, b)` to v equals
    /// `a.apply(b.apply(v))`.
    pub fn compose(a: &Self, b: &Self) -> (r: Self)
        requires
            is_rot(od(*a)),
            is_rot(od(*b)),
        ensures
            od(r) == compose_rot(od(*a), od(*b)),
    {
        let mut out_from = [0u8; 3];
        let mut out_sign = [0i8; 3];
        let mut i: usize = 0;
        while i < 3
            invariant
                is_rot(od(*a)),
                is_rot(od(*b)),
                i <= 3,
                forall|k: int|
                    0 <= k < i ==> out_from@[k] as int == rot_from(od(*b), rot_from(od(*a), k))
                        && out_sign@[k] as int == sgn_mul(
                        rot_sign(od(*a), k),
                        rot_sign(od(*b), rot_from(od(*a), k)),
                    ),
            decreases 3 - i,
        {
            let mid = a.out_from[i] as usize;
            out_from[i] = b.out_from[mid];
            let sa = a.out_sign[i];
            let sb = b.out_sign[mid];
            out_sign[i] = if sa == sb { 1 } else { -1 };
            i = i + 1;
        }
        Self { out_from, out_sign }
    }
}

impl Orient {
    /// The identity rotation, index 0.
    pub fn identity() -> (r: Self)
        ensures
            r.0 == 0,
            rot_of(0) == id_rot(),
    {
        Self(0)
    }

    /// Look up the underlying matrix data.
    pub fn data(self) -> (r: OrientData)
        requires
            self.0 < 24,
        ensures
            od(r) == rot_of(self.0 as int),
    {
        let raw: u8 = if self.0 == 0 {
            3
        } else if self.0 == 3 {
            0
        } else {
            self.0
        };
        let p = raw / 4;
        let k = raw % 4;
        let out_from: [u8; 3] = if p == 0 {
            [0, 1, 2]
        } else if p == 1 {
            [0, 2, 1]
        } else if p == 2 {
            [1, 0, 2]
        } else if p == 3 {
            [1, 2, 0]
        } else if p == 4 {
            [2, 0, 1]
        } else {
            [2, 1, 0]
        };
        let ps: i8 = if p == 0 || p == 3 || p == 4 {
            1
        } else {
            -1
        };
        let s0: i8 = if k >= 2 {
            1
        } else {
            -1
        };
        let s1: i8 = if k % 2 == 1 {
            1
        } else {
            -1
        };
        let t: i8 = if ps == s0 {
            1
        } else {
            -1
        };
        let s2: i8 = if t == s1 {
            1
        } else {
            -1
        };
        OrientData { out_from, out_sign: [s0, s1, s2] }
    }

    /// Apply this rotation to an integer vector.
    pub fn apply(self, v: IVec3) -> (r: IVec3)
        requires
            self.0 < 24,
            bounded(v, 0x7fff_ffff),
        ensures
            r == apply_rot(rot_of(self.0 as int), v),
    {
        proof {
            lemma_rot_of_is_rot(self.0 as int);
        }
        self.data().apply(v)
    }

    /// `self * other` — applying the result is equivalent to applying
    /// `other` then `self`.
    pub fn compose(self, other: Self) -> (r: Self)
        requires
            self.0 < 24,
            other.0 < 24,
        ensures
            r.0 == compose_idx(self.0 as int, other.0 as int),
            r.0 < 24,
    {
        proof {
            lemma_rot_of_is_rot(self.0 as int);
            lemma_rot_of_is_rot(other.0 as int);
            lemma_compose_idx_in_group(self.0 as int, other.0 as int);
        }
        let c = OrientData::compose(&self.data(), &other.data());
        find(c)
    }

    pub fn inverse(self) -> (r: Self)
        requires
            self.0 < 24,
        ensures
            r.0 == inverse_idx(self.0 as int),
            r.0 < 24,
    {
        proof {
            lemma_rot_of_is_rot(self.0 as int);
            lemma_inverse_idx_in_group(self.0 as int);
        }
        let d = self.data();
        let mut out_from = [0u8; 3];
        let mut out_sign = [0i8; 3];
        let mut i: usize = 0;
        while i < 3
            invariant
                is_rot(od(d)),
                i <= 3,
                forall|k: int|
                    0 <= k < 3 && 0 <= #[trigger] rot_from(od(d), k) < 3 && k < i ==> (
                    out_from@[rot_from(od(d), k)] as int == k && out_sign@[rot_from(od(d), k)]
                        as int == rot_sign(od(d), k)),
            decreases 3 - i,
        {
            let j = d.out_from[i] as usize;
            out_from[j] = i as u8;
            out_sign[j] = d.out_sign[i];
            i = i + 1;
        }
        let inv = OrientData { out_from, out_sign };
        proof {
            assert(rot_from(od(d), 0) == d.out_from@[0]);
            assert(rot_from(od(d), 1) == d.out_from@[1]);
            assert(rot_from(od(d), 2) == d.out_from@[2]);
            assert(od(inv) == inverse_rot(od(d)));
        }
        find(inv)
    }
}

impl Default for Orient {
    fn default() -> (r: Self)
        ensures
            r.0 == 0,
    {
        Self(0)
    }
}

/// Find the [`Orient`] index of rotation data in the group.
pub fn find(data: OrientData) -> (r: Orient)
    requires
        is_rot(od(data)),
    ensures
        r.0 == rot_index(od(data)),
        r.0 < 24,
        rot_of(r.0 as int) == od(data),
{
    proof {
        lemma_rot_index_round_trip(od(data));
    }
    let a = data.out_from[0];
    let b = data.out_from[1];
    let rank: u8 = if a == 0 {
        if b == 1 {
            0
        } else {
            1
        }
    } else if a == 1 {
        if b == 0 {
            2
        } else {
            3
        }
    } else {
        if b == 0 {
            4
        } else {
            5
        }
    };
    let raw: u8 = rank * 4 + (if data.out_sign[0] == 1 {
        2
    } else {
        0
    }) + (if data.out_sign[1] == 1 {
        1
    } else {
        0
    });
    let idx: u8 = if raw == 0 {
        3
    } else if raw == 3 {
        0
    } else {
        raw
    };
    Orient(idx)
}

/// All 24 rotations in index order.
pub fn all_orient_data() -> (r: Vec<OrientData>)
    ensures
        r@.len() == 24,
        forall|i: int| 0 <= i < 24 ==> od(#[trigger] r@[i]) == rot_of(i),
{
    let mut out: Vec<OrientData> = Vec::with_capacity(24);
    let mut i: u8 = 0;
    while i < 24
        invariant
            i <= 24,
            out@.len() == i,
            forall|j: int| 0 <= j < i ==> od(#[trigger] out@[j]) == rot_of(j),
        decreases 24 - i,
    {
        out.push(Orient(i).data());
        i = i + 1;
    }
    out
}

/// Spec indices of the nine generator rotations.
pub open spec fn rx_cw() -> int { 6 }
pub open spec fn rx_2() -> int { 2 }
pub open spec fn rx_ccw() -> int { 7 }
pub open spec fn ry_cw() -> int { 23 }
pub open spec fn ry_2() -> int { 1 }
pub open spec fn ry_ccw() -> int { 21 }
pub open spec fn rz_cw() -> int { 9 }
pub open spec fn rz_2() -> int { 3 }
pub open spec fn rz_ccw() -> int { 10 }

/// The nine quarter/half/three-quarter rotations about the three axes.
#[derive(Debug, Clone, Copy)]
pub struct Generators {
    pub rx_cw: Orient,
    pub rx_2: Orient,
    pub rx_ccw: Orient,
    pub ry_cw: Orient,
    pub ry_2: Orient,
    pub ry_ccw: Orient,
    pub rz_cw: Orient,
    pub rz_2: Orient,
    pub rz_ccw: Orient,
}

pub open spec fn generators_spec(g: Generators) -> bool {
    &&& g.rx_cw.0 == rx_cw() && g.rx_2.0 == rx_2() && g.rx_ccw.0 == rx_ccw()
    &&& g.ry_cw.0 == ry_cw() && g.ry_2.0 == ry_2() && g.ry_ccw.0 == ry_ccw()
    &&& g.rz_cw.0 == rz_cw() && g.rz_2.0 == rz_2() && g.rz_ccw.0 == rz_ccw()
}

/// The generators multiply as turns do: four quarter turns about an axis
/// give the identity, the half turn is two quarter turns and the counter
/// turn is a half turn then a quarter turn.
pub proof fn lemma_generator_products()
    ensures
        compose_idx(rx_cw(), rx_cw()) == rx_2(),
        compose_idx(rx_2(), rx_cw()) == rx_ccw(),
        compose_idx(rx_ccw(), rx_cw()) == 0,
        compose_idx(ry_cw(), ry_cw()) == ry_2(),
        compose_idx(ry_2(), ry_cw()) == ry_ccw(),
        compose_idx(ry_ccw(), ry_cw()) == 0,
        compose_idx(rz_cw(), rz_cw()) == rz_2(),
        compose_idx(rz_2(), rz_cw()) == rz_ccw(),
        compose_idx(rz_ccw(), rz_cw()) == 0,
{
}

/// Build the generator rotations: `+90°` right-hand rotations about the
/// three axes, their squares, and their cubes.
pub fn generators() -> (g: Generators)
    ensures
        generators_spec(g),
{
    // +90° around +X: out = (x, -z, y).
    let rx_cw = OrientData { out_from: [0, 2, 1], out_sign: [1, -1, 1] };
    // +90° around +Y: out = (z, y, -x).
    let ry_cw = OrientData { out_from: [2, 1, 0], out_sign: [1, 1, -1] };
    // +90° around +Z: out = (-y, x, z).
    let rz_cw = OrientData { out_from: [1, 0, 2], out_sign: [-1, 1, 1] };
    let rx_2 = OrientData::compose(&rx_cw, &rx_cw);
    let ry_2 = OrientData::compose(&ry_cw, &ry_cw);
    let rz_2 = OrientData::compose(&rz_cw, &rz_cw);
    let rx_ccw = OrientData::compose(&rx_2, &rx_cw);
    let ry_ccw = OrientData::compose(&ry_2, &ry_cw);
    let rz_ccw = OrientData::compose(&rz_2, &rz_cw);
    Generators {
        rx_cw: find(rx_cw),
        rx_2: find(rx_2),
        rx_ccw: find(rx_ccw),
        ry_cw: find(ry_cw),
        ry_2: find(ry_2),
        ry_ccw: find(ry_ccw),
        rz_cw: find(rz_cw),
        rz_2: find(rz_2),
        rz_ccw: find(rz_ccw),
    }
}

} // verus!
