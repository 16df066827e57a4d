//! Flat 6×N² sticker view of the cube.
//!
//! Singmaster face order: `U R F D L B`. Within a face, indices run
//! row-major where row 0 is the top edge of the face (as viewed from
//! outside the cube), col 0 is the left edge.

use vstd::prelude::*;
use vstd::arithmetic::div_mod::{lemma_fundamental_div_mod_converse, lemma_div_denominator};
use crate::cube::{Cube, Cubie, cubies_wf, occupied, on_shell, lattice_coord};
use crate::moves::Face;
use crate::orient::{apply_rot, inverse_idx, lemma_inverse_idx_in_group, lemma_rot_is_rot, rot_of};
use crate::vec3::{IVec3, bounded, comp, ivec};

verus! {

/// Sticker color, named after the face it occupies in the solved state.
#[derive(Debug, Clone, Copy, PartialEq, Eq, Hash, Structural)]
pub enum Color {
    U,
    D,
    F,
    B,
    R,
    L,
}

pub open spec fn color_direction(c: Color) -> IVec3 {
    match c {
        Color::U => ivec(0, 1, 0),
        Color::D => ivec(0, -1, 0),
        Color::R => ivec(1, 0, 0),
        Color::L => ivec(-1, 0, 0),
        Color::F => ivec(0, 0, 1),
        Color::B => ivec(0, 0, -1),
    }
}

pub open spec fn color_from_direction(d: IVec3) -> Option<Color> {
    if d == ivec(0, 1, 0) {
        Some(Color::U)
    } else if d == ivec(0, -1, 0) {
        Some(Color::D)
    } else if d == ivec(1, 0, 0) {
        Some(Color::R)
    } else if d == ivec(-1, 0, 0) {
        Some(Color::L)
    } else if d == ivec(0, 0, 1) {
        Some(Color::F)
    } else if d == ivec(0, 0, -1) {
        Some(Color::B)
    } else {
        None
    }
}

pub open spec fn color_symbol(c: Color) -> char {
    match c {
        Color::U => 'U',
        Color::D => 'D',
        Color::F => 'F',
        Color::B => 'B',
        Color::R => 'R',
        Color::L => 'L',
    }
}

impl Color {
    /// Outward unit direction this color points toward in the solved cube.
    pub fn direction(self) -> (r: IVec3)
        ensures
            r == color_direction(self),
    {
        match self {
            Color::U => IVec3 { x: 0, y: 1, z: 0 },
            Color::D => IVec3 { x: 0, y: -1, z: 0 },
            Color::R => IVec3 { x: 1, y: 0, z: 0 },
            Color::L => IVec3 { x: -1, y: 0, z: 0 },
            Color::F => IVec3 { x: 0, y: 0, z: 1 },
            Color::B => IVec3 { x: 0, y: 0, z: -1 },
        }
    }

    /// Inverse of [`Color::direction`].
    pub fn from_direction(d: IVec3) -> (r: Option<Self>)
        ensures
            r == color_from_direction(d),
    {
        if d.x == 0 && d.y == 1 && d.z == 0 {
            Some(Color::U)
        } else if d.x == 0 && d.y == -1 && d.z == 0 {
            Some(Color::D)
        } else if d.x == 1 && d.y == 0 && d.z == 0 {
            Some(Color::R)
        } else if d.x == -1 && d.y == 0 && d.z == 0 {
            Some(Color::L)
        } else if d.x == 0 && d.y == 0 && d.z == 1 {
            Some(Color::F)
        } else if d.x == 0 && d.y == 0 && d.z == -1 {
            Some(Color::B)
        } else {
            None
        }
    }

    pub fn symbol(self) -> (r: char)
        ensures
            r == color_symbol(self),
    {
        match self {
            Color::U => 'U',
            Color::D => 'D',
            Color::F => 'F',
            Color::B => 'B',
            Color::R => 'R',
            Color::L => 'L',
        }
    }
}

/// Flat sticker array, indexed by `face_index(face) * N² + row * N + col`.
#[derive(Debug, Clone, PartialEq, Eq, Hash)]
pub struct Facelets {
    pub size: u8,
    pub stickers: Vec<Color>,
}

/// Singmaster face order: U R F D L B.
pub open spec fn face_index(f: Face) -> int {
    match f {
        Face::U => 0,
        Face::R => 1,
        Face::F => 2,
        Face::D => 3,
        Face::L => 4,
        Face::B => 5,
    }
}

pub open spec fn face_at(i: int) -> Face {
    if i == 0 {
        Face::U
    } else if i == 1 {
        Face::R
    } else if i == 2 {
        Face::F
    } else if i == 3 {
        Face::D
    } else if i == 4 {
        Face::L
    } else {
        Face::B
    }
}

/// The color a face shows when the cube is solved.
pub open spec fn face_color(f: Face) -> Color {
    match f {
        Face::U => Color::U,
        Face::D => Color::D,
        Face::F => Color::F,
        Face::B => Color::B,
        Face::R => Color::R,
        Face::L => Color::L,
    }
}

pub open spec fn sticker_index(f: Face, n: int, row: int, col: int) -> int {
    face_index(f) * n * n + row * n + col
}

/// Sticker `(row, col)` of face number `f` (in `U R F D L B` order) of a
/// size-`n` sticker array.
pub open spec fn cell(st: Seq<Color>, n: int, f: int, row: int, col: int) -> Color {
    st[sticker_index(face_at(f), n, row, col)]
}

/// The color a face shows when the cube is solved.
pub fn solved_color(face: Face) -> (r: Color)
    ensures
        r == face_color(face),
{
    match face {
        Face::U => Color::U,
        Face::D => Color::D,
        Face::F => Color::F,
        Face::B => Color::B,
        Face::R => Color::R,
        Face::L => Color::L,
    }
}

/// Stickers of a solved cube of size `n`.
pub open spec fn solved_stickers(n: int) -> Seq<Color> {
    Seq::new((6 * n * n) as nat, |i: int| face_color(face_at(i / (n * n))))
}

pub open spec fn face_outward(f: Face) -> IVec3 {
    match f {
        Face::U => ivec(0, 1, 0),
        Face::D => ivec(0, -1, 0),
        Face::F => ivec(0, 0, 1),
        Face::B => ivec(0, 0, -1),
        Face::R => ivec(1, 0, 0),
        Face::L => ivec(-1, 0, 0),
    }
}

pub open spec fn face_top(f: Face) -> IVec3 {
    match f {
        Face::U => ivec(0, 0, -1),
        Face::D => ivec(0, 0, 1),
        Face::F | Face::B | Face::R | Face::L => ivec(0, 1, 0),
    }
}

pub open spec fn face_right(f: Face) -> IVec3 {
    match f {
        Face::U | Face::D | Face::F => ivec(1, 0, 0),
        Face::B => ivec(-1, 0, 0),
        Face::R => ivec(0, 0, -1),
        Face::L => ivec(0, 0, 1),
    }
}

/// Lattice position of the piece under sticker `(row, col)` of `face`:
/// `outward·(n-1) + top·(n-1-2·row) + right·(2·col-(n-1))`, written out per face.
pub open spec fn grid_pos(f: Face, n: int, row: int, col: int) -> IVec3 {
    let a = n - 1;
    let b = n - 1 - 2 * row;
    let c = 2 * col - (n - 1);
    match f {
        Face::U => ivec(c, a, -b),
        Face::D => ivec(c, -a, b),
        Face::F => ivec(c, b, a),
        Face::B => ivec(-c, b, -a),
        Face::R => ivec(a, b, -c),
        Face::L => ivec(-a, b, c),
    }
}

/// Index of the first piece at position `p`.
pub open spec fn first_at(cs: Seq<Cubie>, p: IVec3) -> int {
    choose|i: int|
        0 <= i < cs.len() && cs[i].current_pos == p && forall|j: int|
            0 <= j < i ==> (#[trigger] cs[j]).current_pos != p
}

/// Color of sticker `(row, col)` of `face`: the sticker now facing outward
/// was originally facing `O⁻¹(outward)`, which names its color.
pub open spec fn cell_color(cs: Seq<Cubie>, f: Face, n: int, row: int, col: int) -> Color {
    let c = cs[first_at(cs, grid_pos(f, n, row, col))];
    color_from_direction(
        apply_rot(rot_of(inverse_idx(c.orientation.0 as int)), face_outward(f)),
    )->Some_0
}

/// The sticker view of pieces `cs` on a size-`n` cube.
pub open spec fn sticker_view(cs: Seq<Cubie>, n: int) -> Seq<Color> {
    Seq::new((6 * n * n) as nat, |i: int| cell_color(cs, face_at(i / (n * n)), n, (i / n) % n, i % n))
}

/// The sticker view of a cube.
pub open spec fn facelets_of(c: Cube) -> Seq<Color> {
    sticker_view(c.cubies@, c.size as int)
}

proof fn lemma_sticker_index(n: int, f: int, row: int, col: int)
    requires
        1 <= n <= 255,
        0 <= f < 6,
        0 <= row < n,
        0 <= col < n,
    ensures
        0 <= (f * n + row) * n + col < 6 * n * n,
        f * n * n + row * n + col == (f * n + row) * n + col,
        ((f * n + row) * n + col) / (n * n) == f,
        (((f * n + row) * n + col) / n) % n == row,
        ((f * n + row) * n + col) % n == col,
{
    let i = (f * n + row) * n + col;
    assert(0 <= f * n + row < 6 * n) by (nonlinear_arith)
        requires
            0 <= f < 6,
            0 <= row < n,
    ;
    assert(0 <= i < 6 * n * n) by (nonlinear_arith)
        requires
            0 <= f * n + row < 6 * n,
            0 <= col < n,
            i == (f * n + row) * n + col,
    ;
    assert(f * n * n + row * n + col == (f * n + row) * n + col) by (nonlinear_arith);
    lemma_fundamental_div_mod_converse(i, n, f * n + row, col);
    lemma_fundamental_div_mod_converse(f * n + row, n, f, row);
    lemma_div_denominator(i, n, n);
}

pub(crate) proof fn lemma_grid_pos_on_shell(f: Face, n: int, row: int, col: int)
    requires
        2 <= n <= 5,
        0 <= row < n,
        0 <= col < n,
    ensures
        on_shell(grid_pos(f, n, row, col), n),
{
    let a = n - 1;
    let b = n - 1 - 2 * row;
    let c = 2 * col - (n - 1);
    assert(lattice_coord(a, n) && lattice_coord(-a, n));
    assert((b + n - 1) % 2 == 0 && (-b + n - 1) % 2 == 0) by {
        assert(b + n - 1 == 2 * (n - 1 - row));
        assert(-b + n - 1 == 2 * row);
    }
    assert((c + n - 1) % 2 == 0 && (-c + n - 1) % 2 == 0) by {
        assert(c + n - 1 == 2 * col);
        assert(-c + n - 1 == 2 * (n - 1 - col));
    }
    assert(lattice_coord(b, n) && lattice_coord(-b, n));
    assert(lattice_coord(c, n) && lattice_coord(-c, n));
}

pub(crate) proof fn lemma_first_at(cs: Seq<Cubie>, p: IVec3)
    requires
        occupied(cs, p),
    ensures
        0 <= first_at(cs, p) < cs.len(),
        cs[first_at(cs, p)].current_pos == p,
        forall|j: int| 0 <= j < first_at(cs, p) ==> (#[trigger] cs[j]).current_pos != p,
{
    let i0 = choose|i: int| 0 <= i < cs.len() && (#[trigger] cs[i]).current_pos == p;
    lemma_least_index(cs, p, i0);
}

proof fn lemma_least_index(cs: Seq<Cubie>, p: IVec3, k: int)
    requires
        0 <= k < cs.len(),
        cs[k].current_pos == p,
    ensures
        exists|i: int|
            0 <= i < cs.len() && cs[i].current_pos == p && forall|j: int|
                0 <= j < i ==> (#[trigger] cs[j]).current_pos != p,
    decreases k,
{
    if exists|j: int| 0 <= j < k && (#[trigger] cs[j]).current_pos == p {
        let j = choose|j: int| 0 <= j < k && (#[trigger] cs[j]).current_pos == p;
        lemma_least_index(cs, p, j);
    } else {
        assert(forall|j: int| 0 <= j < k ==> (#[trigger] cs[j]).current_pos != p);
    }
}

proof fn lemma_first_unique(cs: Seq<Cubie>, p: IVec3, k: int)
    requires
        0 <= k < cs.len(),
        cs[k].current_pos == p,
        forall|j: int| 0 <= j < k ==> (#[trigger] cs[j]).current_pos != p,
    ensures
        first_at(cs, p) == k,
{
    lemma_least_index(cs, p, k);
    let f = first_at(cs, p);
    if f < k {
        assert(cs[f].current_pos == p);
    } else if f > k {
        assert(cs[k].current_pos != p);
    }
}

/// A rotated face direction is again a face direction.
proof fn lemma_rotated_direction_has_color(o: int, f: Face)
    requires
        0 <= o < 24,
    ensures
        color_from_direction(apply_rot(rot_of(o), face_outward(f))) is Some,
{
    lemma_rot_is_rot(o);
}

/// Index of the first piece at `pos`, searching in order.
fn find_cubie_at(cubies: &Vec<Cubie>, pos: IVec3) -> (r: usize)
    requires
        occupied(cubies@, pos),
    ensures
        r == first_at(cubies@, pos),
        r < cubies@.len(),
{
    proof {
        lemma_first_at(cubies@, pos);
    }
    let mut i: usize = 0;
    while i < cubies.len()
        invariant
            i <= cubies@.len(),
            occupied(cubies@, pos),
            0 <= first_at(cubies@, pos) < cubies@.len(),
            cubies@[first_at(cubies@, pos)].current_pos == pos,
            forall|j: int| 0 <= j < i ==> (#[trigger] cubies@[j]).current_pos != pos,
        decreases cubies@.len() - i,
    {
        if cubies[i].current_pos == pos {
            proof {
                lemma_first_unique(cubies@, pos, i as int);
            }
            return i;
        }
        i = i + 1;
    }
    proof {
        assert(cubies@[first_at(cubies@, pos)].current_pos != pos);
    }
    0
}

/// Face number `i` in `U R F D L B` order.
pub fn face_at_index(i: usize) -> (r: Face)
    requires
        i < 6,
    ensures
        r == face_at(i as int),
        face_index(r) == i,
{
    if i == 0 {
        Face::U
    } else if i == 1 {
        Face::R
    } else if i == 2 {
        Face::F
    } else if i == 3 {
        Face::D
    } else if i == 4 {
        Face::L
    } else {
        Face::B
    }
}

fn face_index_of(face: Face) -> (r: usize)
    ensures
        r == face_index(face),
{
    match face {
        Face::U => 0,
        Face::R => 1,
        Face::F => 2,
        Face::D => 3,
        Face::L => 4,
        Face::B => 5,
    }
}

fn index(face: Face, n: u8, row: u8, col: u8) -> (r: usize)
    requires
        row < n,
        col < n,
    ensures
        r == sticker_index(face, n as int, row as int, col as int),
        r < 6 * n * n,
{
    proof {
        lemma_sticker_index(n as int, face_index(face), row as int, col as int);
        assert(6 * n * n <= 6 * 255 * 255) by (nonlinear_arith)
            requires
                n <= 255,
        ;
    }
    let n = n as usize;
    let f = face_index_of(face);
    proof {
        assert(f * n * n <= 5 * n * n) by (nonlinear_arith)
            requires
                f <= 5,
        ;
        assert((row as usize) * n <= n * n) by (nonlinear_arith)
            requires
                row < n,
        ;
    }
    f * n * n + (row as usize) * n + (col as usize)
}

/// Lattice position of sticker `(row, col)` of `face`.
fn grid_to_pos(face: Face, n: u8, row: u8, col: u8) -> (r: IVec3)
    requires
        row < n,
        col < n,
    ensures
        r == grid_pos(face, n as int, row as int, col as int),
{
    let a = n as i32 - 1;
    let b = n as i32 - 1 - 2 * (row as i32);
    let c = 2 * (col as i32) - (n as i32 - 1);
    match face {
        Face::U => IVec3 { x: c, y: a, z: -b },
        Face::D => IVec3 { x: c, y: -a, z: b },
        Face::F => IVec3 { x: c, y: b, z: a },
        Face::B => IVec3 { x: -c, y: b, z: -a },
        Face::R => IVec3 { x: a, y: b, z: -c },
        Face::L => IVec3 { x: -a, y: b, z: c },
    }
}

pub(crate) fn face_outward_vec(face: Face) -> (r: IVec3)
    ensures
        r == face_outward(face),
{
    match face {
        Face::U => IVec3 { x: 0, y: 1, z: 0 },
        Face::D => IVec3 { x: 0, y: -1, z: 0 },
        Face::F => IVec3 { x: 0, y: 0, z: 1 },
        Face::B => IVec3 { x: 0, y: 0, z: -1 },
        Face::R => IVec3 { x: 1, y: 0, z: 0 },
        Face::L => IVec3 { x: -1, y: 0, z: 0 },
    }
}

impl Facelets {
    pub fn solved(size: u8) -> (r: Self)
        ensures
            r.size == size,
            r.stickers@ == solved_stickers(size as int),
    {
        let n = size as usize;
        proof {
            assert(n * n <= 255 * 255) by (nonlinear_arith)
                requires
                    n <= 255,
            ;
        }
        let nn = n * n;
        let ghost target = solved_stickers(size as int);
        proof {
            assert(6 * nn == 6 * n * n) by (nonlinear_arith)
                requires
                    nn == n * n,
            ;
            assert(target.len() == 6 * nn);
        }
        let colors = [Color::U, Color::R, Color::F, Color::D, Color::L, Color::B];
        let mut stickers: Vec<Color> = Vec::with_capacity(6 * nn);
        let mut f: usize = 0;
        while f < 6
            invariant
                nn == n * n,
                n == size,
                nn <= 255 * 255,
                target == solved_stickers(size as int),
                target.len() == 6 * nn,
                f <= 6,
                colors@ == seq![Color::U, Color::R, Color::F, Color::D, Color::L, Color::B],
                stickers@ =~= target.take(f * nn),
                f * nn <= 6 * nn,
            decreases 6 - f,
        {
            let mut k: usize = 0;
            while k < nn
                invariant
                    nn == n * n,
                    n == size,
                    nn <= 255 * 255,
                    target == solved_stickers(size as int),
                    target.len() == 6 * nn,
                    f < 6,
                    k <= nn,
                    colors@ == seq![Color::U, Color::R, Color::F, Color::D, Color::L, Color::B],
                    stickers@ =~= target.take(f * nn + k),
                decreases nn - k,
            {
                proof {
                    let i = f * nn + k;
                    assert(i < 6 * nn) by (nonlinear_arith)
                        requires
                            f < 6,
                            k < nn,
                            i == f * nn + k,
                    ;
                    lemma_fundamental_div_mod_converse(i as int, nn as int, f as int, k as int);
                    assert(target[i as int] == colors@[f as int]);
                    assert(target.take(i + 1) =~= target.take(i as int).push(colors@[f as int]));
                }
                stickers.push(colors[f]);
                k = k + 1;
            }
            proof {
                assert(f * nn + nn == (f + 1) * nn) by (nonlinear_arith);
                assert((f + 1) * nn <= 6 * nn) by (nonlinear_arith)
                    requires
                        f < 6,
                ;
            }
            f = f + 1;
        }
        proof {
            assert(target.take(6 * nn) =~= target);
        }
        Self { size, stickers }
    }

    /// Read a sticker by face/row/col coordinates.
    pub fn get(&self, face: Face, row: u8, col: u8) -> (r: Color)
        requires
            row < self.size,
            col < self.size,
            self.stickers@.len() == 6 * self.size * self.size,
        ensures
            r == self.stickers@[sticker_index(face, self.size as int, row as int, col as int)],
    {
        self.stickers[index(face, self.size, row, col)]
    }

    /// Write a sticker.
    pub fn set(&mut self, face: Face, row: u8, col: u8, color: Color)
        requires
            row < old(self).size,
            col < old(self).size,
            old(self).stickers@.len() == 6 * old(self).size * old(self).size,
        ensures
            final(self).size == old(self).size,
            final(self).stickers@ == old(self).stickers@.update(
                sticker_index(face, old(self).size as int, row as int, col as int),
                color,
            ),
    {
        let i = index(face, self.size, row, col);
        self.stickers.set(i, color);
    }

    /// Compute the sticker view of a well-formed cube.
    pub fn from_cube(cube: &Cube) -> (r: Self)
        requires
            cube.wf(),
        ensures
            r.size == cube.size,
            r.stickers@ == facelets_of(*cube),
    {
        let n = cube.size;
        let nu = n as usize;
        proof {
            assert(6 * nu * nu <= 6 * 5 * 5) by (nonlinear_arith)
                requires
                    nu <= 5,
            ;
        }
        let total = 6 * nu * nu;
        let ghost ni = n as int;
        let ghost target = facelets_of(*cube);
        let mut stickers: Vec<Color> = Vec::with_capacity(total);
        let mut fi: usize = 0;
        while fi < 6
            invariant
                cube.wf(),
                n == cube.size,
                ni == n,
                nu == n,
                2 <= ni <= 5,
                target == facelets_of(*cube),
                fi <= 6,
                stickers@ =~= target.take(fi * nu * nu),
            decreases 6 - fi,
        {
            let face = if fi == 0 {
                Face::U
            } else if fi == 1 {
                Face::R
            } else if fi == 2 {
                Face::F
            } else if fi == 3 {
                Face::D
            } else if fi == 4 {
                Face::L
            } else {
                Face::B
            };
            let outward = face_outward_vec(face);
            let mut row: u8 = 0;
            while row < n
                invariant
                    cube.wf(),
                    n == cube.size,
                    ni == n,
                    nu == n,
                    2 <= ni <= 5,
                    target == facelets_of(*cube),
                    fi < 6,
                    face == face_at(fi as int),
                    outward == face_outward(face),
                    row <= n,
                    stickers@ =~= target.take((fi * nu + row) * nu),
                decreases n - row,
            {
                let mut col: u8 = 0;
                while col < n
                    invariant
                        cube.wf(),
                        n == cube.size,
                        ni == n,
                        nu == n,
                        2 <= ni <= 5,
                        target == facelets_of(*cube),
                        fi < 6,
                        face == face_at(fi as int),
                        outward == face_outward(face),
                        row < n,
                        col <= n,
                        stickers@ =~= target.take((fi * nu + row) * nu + col),
                    decreases n - col,
                {
                    let pos = grid_to_pos(face, n, row, col);
                    proof {
                        lemma_grid_pos_on_shell(face, ni, row as int, col as int);
                    }
                    let idx = find_cubie_at(&cube.cubies, pos);
                    let cubie = cube.cubies[idx];
                    proof {
                        assert(cubie.orientation.0 < 24);
                        lemma_inverse_idx_in_group(cubie.orientation.0 as int);
                        lemma_rotated_direction_has_color(inverse_idx(cubie.orientation.0 as int), face);
                    }
                    let inv = cubie.orientation.inverse();
                    let original_dir = inv.apply(outward);
                    let color = match Color::from_direction(original_dir) {
                        Some(c) => c,
                        None => Color::U,
                    };
                    proof {
                        let i = (fi * nu + row) * nu + col;
                        lemma_sticker_index(ni, fi as int, row as int, col as int);
                        assert(target[i as int] == color);
                    }
                    stickers.push(color);
                    col = col + 1;
                }
                proof {
                    assert((fi * nu + row) * nu + nu == (fi * nu + row + 1) * nu) by (nonlinear_arith);
                }
                row = row + 1;
            }
            proof {
                assert((fi * nu + nu) * nu == (fi + 1) * nu * nu) by (nonlinear_arith);
            }
            fi = fi + 1;
        }
        proof {
            assert(target.len() == 6 * nu * nu);
            assert(target.take(6 * nu * nu) =~= target);
        }
        Self { size: n, stickers }
    }
}

/// Elementwise equality of two sticker arrays.
pub fn same_stickers(a: &Vec<Color>, b: &Vec<Color>) -> (r: bool)
    ensures
        r == (a@ == b@),
{
    if a.len() != b.len() {
        return false;
    }
    let mut i: usize = 0;
    while i < a.len()
        invariant
            a@.len() == b@.len(),
            i <= a@.len(),
            forall|j: int| 0 <= j < i ==> a@[j] == b@[j],
        decreases a@.len() - i,
    {
        if a[i] != b[i] {
            return false;
        }
        i = i + 1;
    }
    proof {
        assert(a@ =~= b@);
    }
    true
}

impl Cube {
    /// Visually solved: every face shows a single color.
    pub fn is_solved(&self) -> (r: bool)
        requires
            self.wf(),
        ensures
            r == (facelets_of(*self) == solved_stickers(self.size as int)),
    {
        let a = Facelets::from_cube(self);
        let b = Facelets::solved(self.size);
        same_stickers(&a.stickers, &b.stickers)
    }
}

/// The sticker view of a solved cube is the solved sticker array.
pub proof fn lemma_solved_cube_facelets(c: Cube)
    requires
        c.wf(),
        forall|i: int| 0 <= i < c.cubies@.len() ==> (#[trigger] c.cubies@[i]).orientation.0 == 0,
    ensures
        facelets_of(c) == solved_stickers(c.size as int),
{
    let n = c.size as int;
    let a = facelets_of(c);
    let b = solved_stickers(n);
    assert forall|i: int| 0 <= i < a.len() implies a[i] == b[i] by {
        let f = i / (n * n);
        let row = (i / n) % n;
        let col = i % n;
        assert(0 <= f < 6) by (nonlinear_arith)
            requires
                0 <= i < 6 * n * n,
                n >= 2,
                f == i / (n * n),
        ;
        assert(0 <= row < n && 0 <= col < n);
        lemma_grid_pos_on_shell(face_at(f), n, row, col);
        lemma_first_at(c.cubies@, grid_pos(face_at(f), n, row, col));
        crate::orient::lemma_inverse_law(0);
        crate::orient::lemma_identity_law(0);
    }
    assert(a =~= b);
}

} // verus!
