//! Rebuilding a cubie-level cube from a sticker view.
//!
//! Each piece of a solved cube, taken in order, is matched to the first
//! unclaimed lattice position (in `(x, y, z)` order) whose stickers carry
//! the same colors; its orientation is the lowest-index rotation that
//! carries every home sticker direction onto the direction where that
//! color now shows.

use vstd::prelude::*;
use crate::cube::{Cube, Cubie, lattice_coord, lattice_pos, in_lattice, visible_spec, lemma_lattice_index};
use crate::error::CubeError;
use crate::facelets::{Color, Facelets, color_from_direction, face_outward, face_outward_vec, grid_pos, sticker_index};
use crate::moves::Face;
use crate::orient::{Orient, apply_rot, inverse_idx, rot_of};
use crate::vec3::{IVec3, bounded, ivec};

verus! {

// ---------------------------------------------------------------------
// Reading the stickers of one position.
// ---------------------------------------------------------------------

/// Faces in the order they are scanned: `U D L R F B`.
pub open spec fn scan_face(k: int) -> Face {
    if k == 0 {
        Face::U
    } else if k == 1 {
        Face::D
    } else if k == 2 {
        Face::L
    } else if k == 3 {
        Face::R
    } else if k == 4 {
        Face::F
    } else {
        Face::B
    }
}

/// Position `p` lies on face `f` of a size-`n` cube.
pub open spec fn shows(f: Face, p: IVec3, n: int) -> bool {
    match f {
        Face::U => p.y == n - 1,
        Face::D => p.y == -(n - 1),
        Face::L => p.x == -(n - 1),
        Face::R => p.x == n - 1,
        Face::F => p.z == n - 1,
        Face::B => p.z == -(n - 1),
    }
}

/// Row of face `f` through position `p`.
pub open spec fn cell_row(f: Face, p: IVec3, n: int) -> int {
    match f {
        Face::U => (n - 1 + p.z) / 2,
        Face::D => (n - 1 - p.z) / 2,
        _ => (n - 1 - p.y) / 2,
    }
}

/// Column of face `f` through position `p`.
pub open spec fn cell_col(f: Face, p: IVec3, n: int) -> int {
    match f {
        Face::U | Face::D | Face::F => (p.x + n - 1) / 2,
        Face::B => (n - 1 - p.x) / 2,
        Face::R => (n - 1 - p.z) / 2,
        Face::L => (p.z + n - 1) / 2,
    }
}

/// The sticker that face `f` shows at position `p`.
pub open spec fn sticker_on(st: Seq<Color>, f: Face, p: IVec3, n: int) -> Color {
    st[sticker_index(f, n, cell_row(f, p, n), cell_col(f, p, n))]
}

/// `(direction, color)` of each sticker at `p`, over the first `k` scanned faces.
pub open spec fn read_upto(st: Seq<Color>, n: int, p: IVec3, k: int) -> Seq<(IVec3, Color)>
    decreases k,
{
    if k <= 0 {
        Seq::empty()
    } else {
        let f = scan_face(k - 1);
        let prev = read_upto(st, n, p, k - 1);
        if shows(f, p, n) {
            prev.push((face_outward(f), sticker_on(st, f, p, n)))
        } else {
            prev
        }
    }
}

/// `(direction, color)` of every sticker at position `p`.
pub open spec fn read_stickers(st: Seq<Color>, n: int, p: IVec3) -> Seq<(IVec3, Color)> {
    read_upto(st, n, p, 6)
}

pub open spec fn colors_of(s: Seq<(IVec3, Color)>) -> Seq<Color> {
    s.map_values(|e: (IVec3, Color)| e.1)
}

/// Directions in which the piece at `p` shows a sticker, in the order
/// `+x, -x, +y, -y, +z, -z`.
pub open spec fn exposed_dirs(p: IVec3, n: int) -> Seq<IVec3> {
    let o = n - 1;
    let s0: Seq<IVec3> = if p.x == o { seq![ivec(1, 0, 0)] } else { Seq::empty() };
    let s1 = if p.x == -o { s0.push(ivec(-1, 0, 0)) } else { s0 };
    let s2 = if p.y == o { s1.push(ivec(0, 1, 0)) } else { s1 };
    let s3 = if p.y == -o { s2.push(ivec(0, -1, 0)) } else { s2 };
    let s4 = if p.z == o { s3.push(ivec(0, 0, 1)) } else { s3 };
    if p.z == -o { s4.push(ivec(0, 0, -1)) } else { s4 }
}

/// The color that faces direction `d` on a solved cube.
pub open spec fn dir_color(d: IVec3) -> Color {
    color_from_direction(d)->Some_0
}

/// Colors a piece whose home is `p` carries.
pub open spec fn home_colors(p: IVec3, n: int) -> Seq<Color> {
    exposed_dirs(p, n).map_values(|d: IVec3| dir_color(d))
}

pub open spec fn count_color(s: Seq<Color>, c: Color) -> nat
    decreases s.len(),
{
    if s.len() == 0 {
        0
    } else {
        count_color(s.drop_last(), c) + if s.last() == c {
            1nat
        } else {
            0nat
        }
    }
}

/// Same colors with the same multiplicities.
pub open spec fn same_colors(a: Seq<Color>, b: Seq<Color>) -> bool {
    forall|c: Color| count_color(a, c) == count_color(b, c)
}

// ---------------------------------------------------------------------
// Matching pieces to positions.
// ---------------------------------------------------------------------

/// First lattice position, from index `i` on, that is not claimed, has as
/// many stickers as `want` and shows the colors of `want`.
pub open spec fn find_from(
    st: Seq<Color>,
    n: int,
    want: Seq<Color>,
    claimed: Seq<IVec3>,
    i: int,
) -> Option<IVec3>
    decreases n * n * n - i,
{
    if i < 0 || i >= n * n * n {
        None
    } else {
        let p = lattice_pos(n, i);
        if !claimed.contains(p) && exposed_dirs(p, n).len() == want.len() && same_colors(
            colors_of(read_stickers(st, n, p)),
            want,
        ) {
            Some(p)
        } else {
            find_from(st, n, want, claimed, i + 1)
        }
    }
}

/// Direction of the first sticker of color `c`.
pub open spec fn target_for(sts: Seq<(IVec3, Color)>, c: Color) -> Option<IVec3>
    decreases sts.len(),
{
    if sts.len() == 0 {
        None
    } else if sts[0].1 == c {
        Some(sts[0].0)
    } else {
        target_for(sts.drop_first(), c)
    }
}

pub open spec fn targets_exist(dirs: Seq<IVec3>, sts: Seq<(IVec3, Color)>) -> bool {
    forall|k: int| 0 <= k < dirs.len() ==> (#[trigger] target_for(sts, dir_color(dirs[k]))) is Some
}

/// Rotation `o` carries every home direction onto where its color shows now.
pub open spec fn fits(o: int, dirs: Seq<IVec3>, sts: Seq<(IVec3, Color)>) -> bool {
    forall|k: int|
        0 <= k < dirs.len() ==> apply_rot(rot_of(o), dirs[k]) == (#[trigger] target_for(
            sts,
            dir_color(dirs[k]),
        ))->Some_0
}

pub open spec fn least_fit(dirs: Seq<IVec3>, sts: Seq<(IVec3, Color)>, o: int) -> Option<int>
    decreases 24 - o,
{
    if o < 0 || o >= 24 {
        None
    } else if fits(o, dirs, sts) {
        Some(o)
    } else {
        least_fit(dirs, sts, o + 1)
    }
}

/// Lowest-index rotation that explains the stickers, if any.
pub open spec fn derive_orient(dirs: Seq<IVec3>, sts: Seq<(IVec3, Color)>) -> Option<int> {
    if targets_exist(dirs, sts) {
        least_fit(dirs, sts, 0)
    } else {
        None
    }
}

/// Pieces rebuilt for the homes `homes`, in order; `None` when some piece
/// finds no position or no rotation.
pub open spec fn assign(st: Seq<Color>, n: int, homes: Seq<IVec3>) -> Option<Seq<Cubie>>
    decreases homes.len(),
{
    if homes.len() == 0 {
        Some(Seq::empty())
    } else {
        match assign(st, n, homes.drop_last()) {
            None => None,
            Some(prev) => {
                let h = homes.last();
                match find_from(
                    st,
                    n,
                    home_colors(h, n),
                    prev.map_values(|c: Cubie| c.current_pos),
                    0,
                ) {
                    None => None,
                    Some(p) => match derive_orient(exposed_dirs(h, n), read_stickers(st, n, p)) {
                        None => None,
                        Some(o) => Some(
                            prev.push(
                                Cubie { solved_pos: h, current_pos: p, orientation: Orient(o as u8) },
                            ),
                        ),
                    },
                }
            },
        }
    }
}

/// The cube a sticker array describes, when every piece can be placed.
pub open spec fn assembled(st: Seq<Color>, n: int) -> Option<Seq<Cubie>> {
    assign(st, n, visible_spec(n))
}

// ---------------------------------------------------------------------
// Executable pieces.
// ---------------------------------------------------------------------

fn scan_face_at(k: usize) -> (r: Face)
    ensures
        r == scan_face(k as int),
{
    if k == 0 {
        Face::U
    } else if k == 1 {
        Face::D
    } else if k == 2 {
        Face::L
    } else if k == 3 {
        Face::R
    } else if k == 4 {
        Face::F
    } else {
        Face::B
    }
}

fn face_shows(face: Face, p: IVec3, n: u8) -> (r: bool)
    ensures
        r == shows(face, p, n as int),
{
    let o = n as i32 - 1;
    match face {
        Face::U => p.y == o,
        Face::D => p.y == -o,
        Face::L => p.x == -o,
        Face::R => p.x == o,
        Face::F => p.z == o,
        Face::B => p.z == -o,
    }
}

proof fn lemma_half_in_range(v: int, n: int)
    requires
        1 <= n,
        0 <= v <= 2 * (n - 1),
        v % 2 == 0,
    ensures
        0 <= v / 2 < n,
        v / 2 * 2 == v,
{
}

/// Row and column of face `face` through a lattice position.
fn cell_of(face: Face, p: IVec3, n: u8) -> (r: (u8, u8))
    requires
        1 <= n <= 5,
        in_lattice(p, n as int),
    ensures
        r.0 == cell_row(face, p, n as int),
        r.1 == cell_col(face, p, n as int),
        r.0 < n,
        r.1 < n,
{
    let ghost ni = n as int;
    let o = n as i32 - 1;
    proof {
        assert((p.x + ni - 1) % 2 == 0 && (ni - 1 - p.x) % 2 == 0);
        assert((p.y + ni - 1) % 2 == 0 && (ni - 1 - p.y) % 2 == 0);
        assert((p.z + ni - 1) % 2 == 0 && (ni - 1 - p.z) % 2 == 0);
    }
    let (rn, cn): (i32, i32) = match face {
        Face::U => (o + p.z, p.x + o),
        Face::D => (o - p.z, p.x + o),
        Face::F => (o - p.y, p.x + o),
        Face::B => (o - p.y, o - p.x),
        Face::R => (o - p.y, o - p.z),
        Face::L => (o - p.y, p.z + o),
    };
    proof {
        lemma_half_in_range(rn as int, ni);
        lemma_half_in_range(cn as int, ni);
    }
    (((rn as u32) / 2) as u8, ((cn as u32) / 2) as u8)
}

/// Every sticker the piece at `pos` shows, with the direction it faces.
pub(crate) fn read_stickers_at(facelets: &Facelets, pos: IVec3) -> (r: Vec<(IVec3, Color)>)
    requires
        2 <= facelets.size <= 5,
        facelets.stickers@.len() == 6 * facelets.size * facelets.size,
        in_lattice(pos, facelets.size as int),
    ensures
        r@ == read_stickers(facelets.stickers@, facelets.size as int, pos),
        r@.len() <= 6,
{
    let n = facelets.size;
    let mut out: Vec<(IVec3, Color)> = Vec::new();
    let mut k: usize = 0;
    while k < 6
        invariant
            n == facelets.size,
            2 <= n <= 5,
            facelets.stickers@.len() == 6 * n * n,
            in_lattice(pos, n as int),
            k <= 6,
            out@ == read_upto(facelets.stickers@, n as int, pos, k as int),
            out@.len() <= k,
        decreases 6 - k,
    {
        let face = scan_face_at(k);
        if face_shows(face, pos, n) {
            let (row, col) = cell_of(face, pos, n);
            let color = facelets.get(face, row, col);
            out.push((face_outward_vec(face), color));
        }
        k = k + 1;
    }
    out
}

/// Directions in which a piece at `pos` shows stickers.
pub(crate) fn exposed_directions(pos: IVec3, n: u8) -> (r: Vec<IVec3>)
    ensures
        r@ == exposed_dirs(pos, n as int),
{
    let o = n as i32 - 1;
    let mut out: Vec<IVec3> = Vec::new();
    if pos.x == o {
        out.push(IVec3 { x: 1, y: 0, z: 0 });
    }
    if pos.x == -o {
        out.push(IVec3 { x: -1, y: 0, z: 0 });
    }
    if pos.y == o {
        out.push(IVec3 { x: 0, y: 1, z: 0 });
    }
    if pos.y == -o {
        out.push(IVec3 { x: 0, y: -1, z: 0 });
    }
    if pos.z == o {
        out.push(IVec3 { x: 0, y: 0, z: 1 });
    }
    if pos.z == -o {
        out.push(IVec3 { x: 0, y: 0, z: -1 });
    }
    proof {
        assert(out@ =~= exposed_dirs(pos, n as int));
    }
    out
}

/// Every exposed direction is a face direction, hence names a color.
pub(crate) proof fn lemma_exposed_are_faces(p: IVec3, n: int)
    ensures
        forall|k: int|
            0 <= k < exposed_dirs(p, n).len() ==> (#[trigger] color_from_direction(
                exposed_dirs(p, n)[k],
            )) is Some && bounded(exposed_dirs(p, n)[k], 1),
        exposed_dirs(p, n).len() <= 6,
{
}

/// Colors of a piece whose home directions are `dirs`.
pub(crate) fn colors_for_dirs(dirs: &Vec<IVec3>, Ghost(p): Ghost<IVec3>, Ghost(n): Ghost<int>) -> (r: Vec<Color>)
    requires
        dirs@ == exposed_dirs(p, n),
    ensures
        r@ == dirs@.map_values(|d: IVec3| dir_color(d)),
{
    proof {
        lemma_exposed_are_faces(p, n);
    }
    let mut out: Vec<Color> = Vec::new();
    let mut i: usize = 0;
    while i < dirs.len()
        invariant
            dirs@ == exposed_dirs(p, n),
            forall|k: int|
                0 <= k < exposed_dirs(p, n).len() ==> (#[trigger] color_from_direction(
                    exposed_dirs(p, n)[k],
                )) is Some,
            i <= dirs@.len(),
            out@ =~= dirs@.take(i as int).map_values(|d: IVec3| dir_color(d)),
        decreases dirs@.len() - i,
    {
        let c = match Color::from_direction(dirs[i]) {
            Some(c) => c,
            None => Color::U,
        };
        proof {
            assert(color_from_direction(dirs@[i as int]) is Some);
            assert(dirs@.take(i + 1).drop_last() =~= dirs@.take(i as int));
        }
        out.push(c);
        i = i + 1;
    }
    proof {
        assert(dirs@.take(i as int) =~= dirs@);
    }
    out
}

pub(crate) fn sticker_colors(sts: &Vec<(IVec3, Color)>) -> (r: Vec<Color>)
    ensures
        r@ == colors_of(sts@),
{
    let mut out: Vec<Color> = Vec::new();
    let mut i: usize = 0;
    while i < sts.len()
        invariant
            i <= sts@.len(),
            out@ =~= colors_of(sts@.take(i as int)),
        decreases sts@.len() - i,
    {
        proof {
            assert(sts@.take(i + 1).drop_last() =~= sts@.take(i as int));
        }
        out.push(sts[i].1);
        i = i + 1;
    }
    proof {
        assert(sts@.take(i as int) =~= sts@);
    }
    out
}

/// Number of stickers of color `c`.
pub fn count_of(s: &Vec<Color>, c: Color) -> (r: usize)
    ensures
        r == count_color(s@, c),
{
    let mut count: usize = 0;
    let mut i: usize = 0;
    while i < s.len()
        invariant
            i <= s@.len(),
            count == count_color(s@.take(i as int), c),
            count <= i,
        decreases s@.len() - i,
    {
        proof {
            assert(s@.take(i + 1).drop_last() =~= s@.take(i as int));
        }
        if s[i] == c {
            count = count + 1;
        }
        i = i + 1;
    }
    proof {
        assert(s@.take(i as int) =~= s@);
    }
    count
}

/// The six colors in declaration order.
pub open spec fn color_list() -> Seq<Color> {
    seq![Color::U, Color::D, Color::F, Color::B, Color::R, Color::L]
}

proof fn lemma_every_color_listed(c: Color)
    ensures
        color_list().contains(c),
{
    let l = color_list();
    match c {
        Color::U => assert(l[0] == c),
        Color::D => assert(l[1] == c),
        Color::F => assert(l[2] == c),
        Color::B => assert(l[3] == c),
        Color::R => assert(l[4] == c),
        Color::L => assert(l[5] == c),
    }
}

pub(crate) fn all_colors() -> (r: Vec<Color>)
    ensures
        r@ == color_list(),
{
    let r = vec![Color::U, Color::D, Color::F, Color::B, Color::R, Color::L];
    proof {
        assert(r@ =~= color_list());
    }
    r
}

/// Same colors with the same multiplicities.
pub(crate) fn same_color_counts(a: &Vec<Color>, b: &Vec<Color>) -> (r: bool)
    ensures
        r == same_colors(a@, b@),
{
    let colors = all_colors();
    let mut i: usize = 0;
    while i < 6
        invariant
            colors@ == color_list(),
            i <= 6,
            forall|k: int| 0 <= k < i ==> count_color(a@, #[trigger] color_list()[k]) == count_color(b@, color_list()[k]),
        decreases 6 - i,
    {
        if count_of(a, colors[i]) != count_of(b, colors[i]) {
            return false;
        }
        i = i + 1;
    }
    proof {
        assert forall|c: Color| count_color(a@, c) == count_color(b@, c) by {
            lemma_every_color_listed(c);
            let k = choose|k: int| 0 <= k < 6 && color_list()[k] == c;
        }
    }
    true
}

fn contains_pos(v: &Vec<IVec3>, p: IVec3) -> (r: bool)
    ensures
        r == v@.contains(p),
{
    let mut i: usize = 0;
    while i < v.len()
        invariant
            i <= v@.len(),
            forall|j: int| 0 <= j < i ==> v@[j] != p,
        decreases v@.len() - i,
    {
        if v[i] == p {
            return true;
        }
        i = i + 1;
    }
    false
}

proof fn lemma_find_step(st: Seq<Color>, n: int, want: Seq<Color>, claimed: Seq<IVec3>, i: int)
    requires
        0 <= i < n * n * n,
    ensures
        find_from(st, n, want, claimed, i) == (if !claimed.contains(lattice_pos(n, i))
            && exposed_dirs(lattice_pos(n, i), n).len() == want.len() && same_colors(
            colors_of(read_stickers(st, n, lattice_pos(n, i))),
            want,
        ) {
            Some(lattice_pos(n, i))
        } else {
            find_from(st, n, want, claimed, i + 1)
        }),
{
}

/// First unclaimed lattice position, in `(x, y, z)` order, whose stickers
/// carry exactly the colors `want`; also returns those stickers.
fn find_position_for(facelets: &Facelets, want: &Vec<Color>, claimed: &Vec<IVec3>) -> (r: Option<(IVec3, Vec<(IVec3, Color)>)>)
    requires
        2 <= facelets.size <= 5,
        facelets.stickers@.len() == 6 * facelets.size * facelets.size,
    ensures
        match r {
            Some((p, sts)) => find_from(facelets.stickers@, facelets.size as int, want@, claimed@, 0) == Some(p)
                && sts@ == read_stickers(facelets.stickers@, facelets.size as int, p),
            None => find_from(facelets.stickers@, facelets.size as int, want@, claimed@, 0) is None,
        },
{
    let n = facelets.size;
    let ghost nn = n as int;
    let ghost st = facelets.stickers@;
    let ni = n as i32;
    let outer = ni - 1;
    let mut kx: i32 = 0;
    while kx < ni
        invariant
            2 <= nn <= 5,
            nn == n,
            ni == nn,
            outer == nn - 1,
            n == facelets.size,
            st == facelets.stickers@,
            st.len() == 6 * n * n,
            0 <= kx <= ni,
            find_from(st, nn, want@, claimed@, 0) == find_from(st, nn, want@, claimed@, kx * nn * nn),
        decreases ni - kx,
    {
        let mut ky: i32 = 0;
        while ky < ni
            invariant
                2 <= nn <= 5,
                nn == n,
                ni == nn,
                outer == nn - 1,
                n == facelets.size,
                st == facelets.stickers@,
                st.len() == 6 * n * n,
                0 <= kx < ni,
                0 <= ky <= ni,
                find_from(st, nn, want@, claimed@, 0) == find_from(st, nn, want@, claimed@, (kx * nn + ky) * nn),
            decreases ni - ky,
        {
            let mut kz: i32 = 0;
            while kz < ni
                invariant
                    2 <= nn <= 5,
                    nn == n,
                    ni == nn,
                    outer == nn - 1,
                    n == facelets.size,
                    st == facelets.stickers@,
                    st.len() == 6 * n * n,
                    0 <= kx < ni,
                    0 <= ky < ni,
                    0 <= kz <= ni,
                    find_from(st, nn, want@, claimed@, 0) == find_from(
                        st,
                        nn,
                        want@,
                        claimed@,
                        (kx * nn + ky) * nn + kz,
                    ),
                decreases ni - kz,
            {
                let p = IVec3 { x: 2 * kx - outer, y: 2 * ky - outer, z: 2 * kz - outer };
                let ghost idx = (kx * nn + ky) * nn + kz;
                proof {
                    lemma_lattice_index(nn, kx as int, ky as int, kz as int);
                    assert(lattice_pos(nn, idx) == p);
                    lemma_find_step(st, nn, want@, claimed@, idx);
                    assert(lattice_coord(p.x as int, nn));
                    assert(lattice_coord(p.y as int, nn));
                    assert(lattice_coord(p.z as int, nn));
                }
                if !contains_pos(claimed, p) {
                    let exposed = exposed_directions(p, n);
                    if exposed.len() == want.len() {
                        let stickers = read_stickers_at(facelets, p);
                        let found = sticker_colors(&stickers);
                        if same_color_counts(&found, want) {
                            return Some((p, stickers));
                        }
                    }
                }
                kz = kz + 1;
            }
            proof {
                assert((kx * nn + ky) * nn + nn == (kx * nn + ky + 1) * nn) by (nonlinear_arith);
            }
            ky = ky + 1;
        }
        proof {
            assert((kx * nn + nn) * nn == (kx + 1) * nn * nn) by (nonlinear_arith);
        }
        kx = kx + 1;
    }
    proof {
        assert(kx * nn * nn == nn * nn * nn) by (nonlinear_arith)
            requires
                kx == nn,
        ;
    }
    None
}

/// Direction of the first sticker of color `c`.
fn target_of(sts: &Vec<(IVec3, Color)>, c: Color) -> (r: Option<IVec3>)
    ensures
        r == target_for(sts@, c),
{
    let mut i: usize = 0;
    proof {
        assert(sts@.skip(0) =~= sts@);
    }
    while i < sts.len()
        invariant
            i <= sts@.len(),
            target_for(sts@, c) == target_for(sts@.skip(i as int), c),
        decreases sts@.len() - i,
    {
        proof {
            assert(sts@.skip(i as int).drop_first() =~= sts@.skip(i + 1));
        }
        if sts[i].1 == c {
            return Some(sts[i].0);
        }
        i = i + 1;
    }
    None
}

/// Lowest-index rotation carrying each home direction in `dirs` onto the
/// direction where its color shows in `sts`.
fn derive_orientation(dirs: &Vec<IVec3>, sts: &Vec<(IVec3, Color)>, Ghost(p): Ghost<IVec3>, Ghost(n): Ghost<int>) -> (r: Option<Orient>)
    requires
        dirs@ == exposed_dirs(p, n),
    ensures
        match derive_orient(dirs@, sts@) {
            Some(o) => r == Some(Orient(o as u8)) && 0 <= o < 24,
            None => r is None,
        },
{
    proof {
        lemma_exposed_are_faces(p, n);
    }
    let colors = colors_for_dirs(dirs, Ghost(p), Ghost(n));
    let mut targets: Vec<IVec3> = Vec::new();
    let mut k: usize = 0;
    while k < dirs.len()
        invariant
            colors@ == dirs@.map_values(|d: IVec3| dir_color(d)),
            k <= dirs@.len(),
            targets@.len() == k,
            forall|j: int|
                0 <= j < k ==> (#[trigger] target_for(sts@, dir_color(dirs@[j]))) == Some(
                    targets@[j],
                ),
        decreases dirs@.len() - k,
    {
        match target_of(sts, colors[k]) {
            Some(t) => targets.push(t),
            None => {
                proof {
                    assert(target_for(sts@, dir_color(dirs@[k as int])) is None);
                    assert(!targets_exist(dirs@, sts@));
                }
                return None;
            },
        }
        k = k + 1;
    }
    assert(targets_exist(dirs@, sts@));
    let mut o: u8 = 0;
    while o < 24
        invariant
            dirs@ == exposed_dirs(p, n),
            forall|k: int| 0 <= k < dirs@.len() ==> bounded(#[trigger] dirs@[k], 1),
            targets@.len() == dirs@.len(),
            forall|j: int|
                0 <= j < dirs@.len() ==> (#[trigger] target_for(sts@, dir_color(dirs@[j]))) == Some(
                    targets@[j],
                ),
            o <= 24,
            derive_orient(dirs@, sts@) == least_fit(dirs@, sts@, o as int),
        decreases 24 - o,
    {
        let rot = Orient(o);
        let mut ok = true;
        let mut j: usize = 0;
        while j < dirs.len()
            invariant
                o < 24,
                rot == Orient(o),
                forall|k: int| 0 <= k < dirs@.len() ==> bounded(#[trigger] dirs@[k], 1),
                targets@.len() == dirs@.len(),
                j <= dirs@.len(),
                ok == (forall|k: int| 0 <= k < j ==> apply_rot(rot_of(o as int), dirs@[k]) == #[trigger] targets@[k]),
            decreases dirs@.len() - j,
        {
            let v = rot.apply(dirs[j]);
            if v != targets[j] {
                ok = false;
            }
            j = j + 1;
        }
        proof {
            if ok {
                assert forall|k: int| 0 <= k < dirs@.len() implies apply_rot(rot_of(o as int), dirs@[k])
                    == (#[trigger] target_for(sts@, dir_color(dirs@[k])))->Some_0 by {
                    assert(apply_rot(rot_of(o as int), dirs@[k]) == targets@[k]);
                }
            } else {
                let k = choose|k: int| 0 <= k < j && apply_rot(rot_of(o as int), dirs@[k]) != #[trigger] targets@[k];
                assert(target_for(sts@, dir_color(dirs@[k])) == Some(targets@[k]));
            }
            assert(ok == fits(o as int, dirs@, sts@));
        }
        if ok {
            return Some(rot);
        }
        o = o + 1;
    }
    None
}

/// Once some piece cannot be placed, no longer list of homes can be.
proof fn lemma_assign_prefix_none(st: Seq<Color>, n: int, homes: Seq<IVec3>, k: int)
    requires
        0 <= k <= homes.len(),
        assign(st, n, homes.take(k)) is None,
    ensures
        assign(st, n, homes) is None,
    decreases homes.len(),
{
    if k == homes.len() {
        assert(homes.take(k) =~= homes);
    } else {
        assert(homes.drop_last().take(k) =~= homes.take(k));
        lemma_assign_prefix_none(st, n, homes.drop_last(), k);
    }
}

/// The expected length of a sticker array for size `n`.
pub open spec fn facelet_count(n: int) -> int {
    6 * n * n
}

impl Facelets {
    /// Reconstruct a cube state from the sticker view.
    ///
    /// This assumes the facelets describe a reachable cube state; it does
    /// not run the full validation pipeline.
    pub fn try_into_cube(&self) -> (r: Result<Cube, CubeError>)
        ensures
            match r {
                Ok(c) => self.stickers@.len() == facelet_count(self.size as int)
                    && 2 <= self.size <= 5 && c.size == self.size
                    && assembled(self.stickers@, self.size as int) == Some(c.cubies@)
                    && c.wf() && crate::facelets::facelets_of(c) == self.stickers@,
                Err(e) => if self.stickers@.len() != facelet_count(self.size as int) {
                    e == CubeError::FaceletLength {
                        got: self.stickers@.len() as usize,
                        expected: facelet_count(self.size as int) as usize,
                    }
                } else if !(2 <= self.size <= 5) {
                    e == CubeError::InvalidSize(self.size)
                } else {
                    assembled(self.stickers@, self.size as int) is None
                        && e is InvalidFaceletState
                },
            },
    {
        let n = self.size;
        proof {
            assert((n as usize) * (n as usize) <= 255 * 255) by (nonlinear_arith)
                requires
                    n <= 255,
            ;
        }
        let expected = 6 * ((n as usize) * (n as usize));
        proof {
            assert(expected == facelet_count(n as int)) by (nonlinear_arith)
                requires
                    expected == 6 * ((n as usize) * (n as usize)),
            ;
        }
        if self.stickers.len() != expected {
            return Err(CubeError::FaceletLength { got: self.stickers.len(), expected });
        }
        let solved = match Cube::solved(n) {
            Ok(c) => c,
            Err(e) => {
                return Err(e);
            },
        };
        let ghost st = self.stickers@;
        let ghost nn = n as int;
        let ghost homes = visible_spec(nn);
        let mut cubies: Vec<Cubie> = Vec::new();
        let mut claimed: Vec<IVec3> = Vec::new();
        let mut i: usize = 0;
        while i < solved.cubies.len()
            invariant
                2 <= n <= 5,
                nn == n,
                n == self.size,
                st == self.stickers@,
                st.len() == 6 * n * n,
                homes == visible_spec(nn),
                solved.cubies@ == homes.map_values(|p: IVec3| crate::cube::solved_cubie(p)),
                i <= homes.len(),
                assign(st, nn, homes.take(i as int)) == Some(cubies@),
                claimed@ == cubies@.map_values(|c: Cubie| c.current_pos),
            decreases homes.len() - i,
        {
            let h = solved.cubies[i].solved_pos;
            let exposed = exposed_directions(h, n);
            let want = colors_for_dirs(&exposed, Ghost(h), Ghost(nn));
            proof {
                assert(homes.take(i + 1).drop_last() =~= homes.take(i as int));
                assert(homes.take(i + 1).last() == h);
                assert(want@ == home_colors(h, nn));
            }
            match find_position_for(self, &want, &claimed) {
                None => {
                    proof {
                        lemma_assign_prefix_none(st, nn, homes, i + 1);
                    }
                    return Err(
                        CubeError::InvalidFaceletState {
                            reason: "no unclaimed position carries the stickers of a piece".to_owned(),
                        },
                    );
                },
                Some((p, sts)) => {
                    match derive_orientation(&exposed, &sts, Ghost(h), Ghost(nn)) {
                        None => {
                            proof {
                                lemma_assign_prefix_none(st, nn, homes, i + 1);
                            }
                            return Err(
                                CubeError::InvalidFaceletState {
                                    reason: "no rotation explains the stickers of a piece".to_owned(),
                                },
                            );
                        },
                        Some(o) => {
                            let c = Cubie { solved_pos: h, current_pos: p, orientation: o };
                            cubies.push(c);
                            claimed.push(p);
                            proof {
                                assert(claimed@ =~= cubies@.map_values(|c: Cubie| c.current_pos));
                            }
                        },
                    }
                },
            }
            i = i + 1;
        }
        proof {
            assert(homes.take(i as int) =~= homes);
            lemma_assembled_wf(st, nn);
            lemma_assembled_view(st, nn);
        }
        Ok(Cube { size: n, cubies })
    }
}

// ---------------------------------------------------------------------
// What a rebuilt cube looks like.
// ---------------------------------------------------------------------

proof fn lemma_lattice_pos_in_lattice(n: int, i: int)
    requires
        2 <= n <= 5,
        0 <= i < n * n * n,
    ensures
        in_lattice(lattice_pos(n, i), n),
{
    let kx = i / (n * n);
    let ky = (i / n) % n;
    let kz = i % n;
    assert(0 <= kx < n) by (nonlinear_arith)
        requires
            0 <= i < n * n * n,
            n >= 2,
            kx == i / (n * n),
    ;
    assert(0 <= ky < n);
    assert(0 <= kz < n);
    assert(lattice_coord(2 * kx - (n - 1), n));
    assert(lattice_coord(2 * ky - (n - 1), n));
    assert(lattice_coord(2 * kz - (n - 1), n));
}

pub proof fn lemma_find_from_props(st: Seq<Color>, n: int, want: Seq<Color>, claimed: Seq<IVec3>, i: int)
    requires
        2 <= n <= 5,
        find_from(st, n, want, claimed, i) is Some,
    ensures
        in_lattice(find_from(st, n, want, claimed, i)->Some_0, n),
        exposed_dirs(find_from(st, n, want, claimed, i)->Some_0, n).len() == want.len(),
        !claimed.contains(find_from(st, n, want, claimed, i)->Some_0),
    decreases n * n * n - i,
{
    if 0 <= i < n * n * n {
        let p = lattice_pos(n, i);
        if !claimed.contains(p) && exposed_dirs(p, n).len() == want.len() && same_colors(
            colors_of(read_stickers(st, n, p)),
            want,
        ) {
            lemma_lattice_pos_in_lattice(n, i);
        } else {
            lemma_find_from_props(st, n, want, claimed, i + 1);
        }
    }
}

proof fn lemma_least_fit_range(dirs: Seq<IVec3>, sts: Seq<(IVec3, Color)>, o: int)
    requires
        least_fit(dirs, sts, o) is Some,
    ensures
        0 <= least_fit(dirs, sts, o)->Some_0 < 24,
    decreases 24 - o,
{
    if 0 <= o < 24 && !fits(o, dirs, sts) {
        lemma_least_fit_range(dirs, sts, o + 1);
    }
}

/// Every piece of a rebuilt cube keeps its home, has a valid rotation, and
/// sits on a lattice position showing as many stickers as its home does.
pub proof fn lemma_assign_pieces(st: Seq<Color>, n: int, homes: Seq<IVec3>)
    requires
        2 <= n <= 5,
        assign(st, n, homes) is Some,
    ensures
        ({
            let cs = assign(st, n, homes)->Some_0;
            &&& cs.len() == homes.len()
            &&& forall|k: int|
                0 <= k < cs.len() ==> {
                    &&& (#[trigger] cs[k]).solved_pos == homes[k]
                    &&& cs[k].orientation.0 < 24
                    &&& in_lattice(cs[k].current_pos, n)
                    &&& exposed_dirs(cs[k].current_pos, n).len() == exposed_dirs(homes[k], n).len()
                }
        }),
    decreases homes.len(),
{
    if homes.len() > 0 {
        lemma_assign_pieces(st, n, homes.drop_last());
        let prev = assign(st, n, homes.drop_last())->Some_0;
        let h = homes.last();
        let claimed = prev.map_values(|c: Cubie| c.current_pos);
        lemma_find_from_props(st, n, home_colors(h, n), claimed, 0);
        let p = find_from(st, n, home_colors(h, n), claimed, 0)->Some_0;
        let dirs = exposed_dirs(h, n);
        let sts = read_stickers(st, n, p);
        assert(targets_exist(dirs, sts));
        lemma_least_fit_range(dirs, sts, 0);
    }
}

/// A lattice position showing three stickers is a corner position.
pub proof fn lemma_three_stickers_corner(p: IVec3, n: int)
    requires
        2 <= n,
        exposed_dirs(p, n).len() == 3,
    ensures
        p.x == n - 1 || p.x == -(n - 1),
        p.y == n - 1 || p.y == -(n - 1),
        p.z == n - 1 || p.z == -(n - 1),
{
}

/// A corner home shows three stickers.
pub proof fn lemma_corner_home_three(p: IVec3, n: int)
    requires
        2 <= n,
        p.x == n - 1 || p.x == -(n - 1),
        p.y == n - 1 || p.y == -(n - 1),
        p.z == n - 1 || p.z == -(n - 1),
    ensures
        exposed_dirs(p, n).len() == 3,
{
}


/// The positions claimed by rebuilt pieces are pairwise distinct.
proof fn lemma_assign_distinct(st: Seq<Color>, n: int, homes: Seq<IVec3>)
    requires
        assign(st, n, homes) is Some,
    ensures
        assign(st, n, homes)->Some_0.map_values(|c: Cubie| c.current_pos).no_duplicates(),
    decreases homes.len(),
{
    if homes.len() > 0 {
        lemma_assign_distinct(st, n, homes.drop_last());
        let prev = assign(st, n, homes.drop_last())->Some_0;
        let h = homes.last();
        let claimed = prev.map_values(|c: Cubie| c.current_pos);
        let p = find_from(st, n, home_colors(h, n), claimed, 0)->Some_0;
        let o = derive_orient(exposed_dirs(h, n), read_stickers(st, n, p))->Some_0;
        let cs = assign(st, n, homes)->Some_0;
        assert(cs == prev.push(Cubie { solved_pos: h, current_pos: p, orientation: Orient(o as u8) }));
        lemma_find_from_not_claimed(st, n, home_colors(h, n), claimed, 0);
        let all = cs.map_values(|c: Cubie| c.current_pos);
        assert(all =~= claimed.push(p));
        assert forall|a: int, b: int| 0 <= a < all.len() && 0 <= b < all.len() && a != b implies all[a]
            != all[b] by {
            if a < claimed.len() && b < claimed.len() {
            } else if a == claimed.len() {
                assert(claimed[b] == all[b]);
            } else {
                assert(claimed[a] == all[a]);
            }
        }
    }
}

proof fn lemma_find_from_not_claimed(st: Seq<Color>, n: int, want: Seq<Color>, claimed: Seq<IVec3>, i: int)
    requires
        find_from(st, n, want, claimed, i) is Some,
    ensures
        !claimed.contains(find_from(st, n, want, claimed, i)->Some_0),
    decreases n * n * n - i,
{
    if 0 <= i < n * n * n {
        let p = lattice_pos(n, i);
        if !(!claimed.contains(p) && exposed_dirs(p, n).len() == want.len() && same_colors(
            colors_of(read_stickers(st, n, p)),
            want,
        )) {
            lemma_find_from_not_claimed(st, n, want, claimed, i + 1);
        }
    }
}

/// A position shows a sticker exactly when it lies on the outer shell.
pub proof fn lemma_exposed_iff_outer(p: IVec3, n: int)
    requires
        2 <= n,
    ensures
        (exposed_dirs(p, n).len() > 0) == crate::cube::is_outer(p, n),
{
}

/// A sticker array that assembles describes a well-formed cube: every
/// piece has a valid rotation, pieces sit on and come from the shell, and
/// every shell position holds a piece.
pub proof fn lemma_assembled_wf(st: Seq<Color>, n: int)
    requires
        2 <= n <= 5,
        assembled(st, n) is Some,
    ensures
        crate::cube::cubies_wf(assembled(st, n)->Some_0, n),
{
    let vis = visible_spec(n);
    let cs = assembled(st, n)->Some_0;
    lemma_assign_pieces(st, n, vis);
    lemma_assign_distinct(st, n, vis);
    crate::cube::lemma_solved_wf(n);
    let sol = vis.map_values(|q: IVec3| crate::cube::solved_cubie(q));
    assert forall|k: int| 0 <= k < cs.len() implies #[trigger] cs[k].orientation.0 < 24 && crate::cube::on_shell(
        cs[k].current_pos,
        n,
    ) && crate::cube::on_shell(cs[k].solved_pos, n) by {
        assert(sol[k].current_pos == vis[k]);
        assert(sol[k].orientation.0 < 24);
        assert(crate::cube::on_shell(vis[k], n));
        assert(cs[k].solved_pos == vis[k]);
        lemma_exposed_iff_outer(vis[k], n);
        lemma_exposed_iff_outer(cs[k].current_pos, n);
    }
    let pos = cs.map_values(|c: Cubie| c.current_pos);
    let t = vis.to_set();
    let ps = pos.to_set();
    vis.lemma_cardinality_of_set();
    pos.unique_seq_to_set();
    assert forall|q: IVec3| ps.contains(q) implies t.contains(q) by {
        let k = choose|k: int| 0 <= k < pos.len() && pos[k] == q;
        assert(crate::cube::on_shell(cs[k].current_pos, n));
        assert(crate::cube::on_shell(q, n));
        assert(crate::cube::occupied(sol, q));
        let j = choose|j: int| 0 <= j < sol.len() && (#[trigger] sol[j]).current_pos == q;
        assert(vis[j] == q);
    }
    vstd::set_lib::lemma_len_subset(ps, t);
    vstd::set_lib::lemma_subset_equality(ps, t);
    assert forall|q: IVec3| #[trigger] crate::cube::on_shell(q, n) implies crate::cube::occupied(cs, q) by {
        assert(crate::cube::occupied(sol, q));
        let j = choose|j: int| 0 <= j < sol.len() && (#[trigger] sol[j]).current_pos == q;
        assert(vis[j] == q);
        assert(t.contains(q));
        assert(ps.contains(q));
        let k = choose|k: int| 0 <= k < pos.len() && pos[k] == q;
        assert(cs[k].current_pos == q);
    }
}

// ---------------------------------------------------------------------
// The sticker view of a rebuilt cube.
// ---------------------------------------------------------------------

proof fn lemma_least_fit_fits(dirs: Seq<IVec3>, sts: Seq<(IVec3, Color)>, o: int)
    requires
        least_fit(dirs, sts, o) is Some,
    ensures
        fits(least_fit(dirs, sts, o)->Some_0, dirs, sts),
    decreases 24 - o,
{
    if 0 <= o < 24 && !fits(o, dirs, sts) {
        lemma_least_fit_fits(dirs, sts, o + 1);
    }
}

/// Every rebuilt piece's rotation carries each of its home sticker
/// directions onto the direction where that color shows at its position.
proof fn lemma_assign_fit(st: Seq<Color>, n: int, homes: Seq<IVec3>, k: int)
    requires
        2 <= n <= 5,
        assign(st, n, homes) is Some,
        0 <= k < homes.len(),
    ensures
        assign(st, n, homes)->Some_0.len() == homes.len(),
        ({
            let c = assign(st, n, homes)->Some_0[k];
            &&& targets_exist(exposed_dirs(homes[k], n), read_stickers(st, n, c.current_pos))
            &&& fits(c.orientation.0 as int, exposed_dirs(homes[k], n), read_stickers(st, n, c.current_pos))
        }),
    decreases homes.len(),
{
    lemma_assign_pieces(st, n, homes);
    lemma_assign_pieces(st, n, homes.drop_last());
    let prev = assign(st, n, homes.drop_last())->Some_0;
    let h = homes.last();
    let claimed = prev.map_values(|c: Cubie| c.current_pos);
    let p = find_from(st, n, home_colors(h, n), claimed, 0)->Some_0;
    let dirs = exposed_dirs(h, n);
    let sts = read_stickers(st, n, p);
    let o = derive_orient(dirs, sts)->Some_0;
    let cs = assign(st, n, homes)->Some_0;
    assert(cs == prev.push(Cubie { solved_pos: h, current_pos: p, orientation: Orient(o as u8) }));
    if k < homes.len() - 1 {
        lemma_assign_fit(st, n, homes.drop_last(), k);
        assert(cs[k] == prev[k]);
        assert(homes[k] == homes.drop_last()[k]);
    } else {
        lemma_least_fit_range(dirs, sts, 0);
        lemma_least_fit_fits(dirs, sts, 0);
    }
}

proof fn lemma_target_for_entry(s: Seq<(IVec3, Color)>, c: Color)
    requires
        target_for(s, c) is Some,
    ensures
        exists|j: int| 0 <= j < s.len() && s[j] == (target_for(s, c)->Some_0, c),
    decreases s.len(),
{
    if s[0].1 != c {
        lemma_target_for_entry(s.drop_first(), c);
        let j = choose|j: int| 0 <= j < s.drop_first().len() && s.drop_first()[j] == (target_for(s, c)->Some_0, c);
        assert(s[j + 1] == s.drop_first()[j]);
    }
}

/// The face whose outward direction is `d` (`B` for any other vector).
pub open spec fn dir_face(d: IVec3) -> Face {
    if d == ivec(0, 1, 0) {
        Face::U
    } else if d == ivec(0, -1, 0) {
        Face::D
    } else if d == ivec(1, 0, 0) {
        Face::R
    } else if d == ivec(-1, 0, 0) {
        Face::L
    } else if d == ivec(0, 0, 1) {
        Face::F
    } else {
        Face::B
    }
}

/// Position of a face in the scan order `U D L R F B`.
pub open spec fn scan_index(f: Face) -> int {
    match f {
        Face::U => 0,
        Face::D => 1,
        Face::L => 2,
        Face::R => 3,
        Face::F => 4,
        Face::B => 5,
    }
}

/// Entry `e` read at `p` is the sticker that a face showing `p` carries.
pub open spec fn read_ok(st: Seq<Color>, n: int, p: IVec3, e: (IVec3, Color)) -> bool {
    &&& face_outward(dir_face(e.0)) == e.0
    &&& shows(dir_face(e.0), p, n)
    &&& e.1 == sticker_on(st, dir_face(e.0), p, n)
}

/// The stickers read at `p` over the first `k` scanned faces: each comes
/// from a face that shows `p`, every such face is read, and no direction
/// comes twice.
proof fn lemma_read_upto(st: Seq<Color>, n: int, p: IVec3, k: int)
    requires
        0 <= k <= 6,
    ensures
        forall|j: int| 0 <= j < read_upto(st, n, p, k).len() ==> read_ok(st, n, p, #[trigger] read_upto(st, n, p, k)[j]),
        forall|t: int|
            0 <= t < k && shows(#[trigger] scan_face(t), p, n) ==> read_upto(st, n, p, k).contains(
                (face_outward(scan_face(t)), sticker_on(st, scan_face(t), p, n)),
            ),
        forall|j: int|
            0 <= j < read_upto(st, n, p, k).len() ==> scan_index(dir_face(#[trigger] read_upto(st, n, p, k)[j].0)) < k,
        read_upto(st, n, p, k).map_values(|e: (IVec3, Color)| e.0).no_duplicates(),
    decreases k,
{
    if k > 0 {
        lemma_read_upto(st, n, p, k - 1);
        let prev = read_upto(st, n, p, k - 1);
        let f = scan_face(k - 1);
        let cur = read_upto(st, n, p, k);
        let pd = prev.map_values(|e: (IVec3, Color)| e.0);
        let cd = cur.map_values(|e: (IVec3, Color)| e.0);
        if shows(f, p, n) {
            let e = (face_outward(f), sticker_on(st, f, p, n));
            assert(cur == prev.push(e));
            assert(cd =~= pd.push(e.0));
            assert(read_ok(st, n, p, e));
            assert forall|j: int| 0 <= j < cur.len() implies scan_index(dir_face(#[trigger] cur[j].0)) < k by {
                if j < prev.len() {
                    assert(cur[j] == prev[j]);
                }
            }
            assert forall|t: int| 0 <= t < k && shows(#[trigger] scan_face(t), p, n) implies cur.contains(
                (face_outward(scan_face(t)), sticker_on(st, scan_face(t), p, n)),
            ) by {
                if t < k - 1 {
                    let e2 = (face_outward(scan_face(t)), sticker_on(st, scan_face(t), p, n));
                    let j = choose|j: int| 0 <= j < prev.len() && prev[j] == e2;
                    assert(cur[j] == e2);
                } else {
                    assert(cur[prev.len() as int] == e);
                }
            }
            assert forall|a: int, b: int| 0 <= a < cd.len() && 0 <= b < cd.len() && a != b implies cd[a] != cd[b] by {
                if a < pd.len() && b < pd.len() {
                } else {
                    let i = if a < pd.len() { a } else { b };
                    assert(cur[i] == prev[i]);
                    assert(read_ok(st, n, p, prev[i]));
                    assert(scan_index(dir_face(prev[i].0)) < k - 1);
                }
            }
        } else {
            assert(cur == prev);
        }
    }
}

/// A position shows as many stickers as it has exposed directions.
proof fn lemma_read_len(st: Seq<Color>, n: int, p: IVec3)
    requires
        2 <= n,
    ensures
        read_stickers(st, n, p).len() == exposed_dirs(p, n).len(),
{
    reveal_with_fuel(read_upto, 7);
}

/// The exposed directions of a position are distinct.
proof fn lemma_exposed_distinct(p: IVec3, n: int)
    requires
        2 <= n,
    ensures
        exposed_dirs(p, n).no_duplicates(),
{
}

/// Directions of the stickers read at `q`.
pub open spec fn read_dirs(st: Seq<Color>, n: int, q: IVec3) -> Seq<IVec3> {
    read_stickers(st, n, q).map_values(|e: (IVec3, Color)| e.0)
}

/// Home directions turned by rotation `o`.
pub open spec fn turned(o: int, dirs: Seq<IVec3>) -> Seq<IVec3> {
    dirs.map_values(|d: IVec3| apply_rot(rot_of(o), d))
}

proof fn lemma_turned_distinct(o: int, dirs: Seq<IVec3>)
    requires
        0 <= o < 24,
        dirs.no_duplicates(),
        forall|k: int| 0 <= k < dirs.len() ==> bounded(#[trigger] dirs[k], 1),
    ensures
        turned(o, dirs).no_duplicates(),
{
    let img = turned(o, dirs);
    assert forall|a: int, b: int| 0 <= a < img.len() && 0 <= b < img.len() && a != b implies img[a] != img[b] by {
        crate::orient::lemma_apply_inverse(o, dirs[a]);
        crate::orient::lemma_apply_inverse(o, dirs[b]);
    }
}

proof fn lemma_turned_read(st: Seq<Color>, n: int, q: IVec3, o: int, dirs: Seq<IVec3>)
    requires
        targets_exist(dirs, read_stickers(st, n, q)),
        fits(o, dirs, read_stickers(st, n, q)),
    ensures
        turned(o, dirs).to_set().subset_of(read_dirs(st, n, q).to_set()),
{
    let sts = read_stickers(st, n, q);
    let img = turned(o, dirs);
    let sd = read_dirs(st, n, q);
    assert forall|x: IVec3| img.to_set().contains(x) implies sd.to_set().contains(x) by {
        let k = choose|k: int| 0 <= k < img.len() && img[k] == x;
        let c = dir_color(dirs[k]);
        assert(target_for(sts, dir_color(dirs[k])) is Some);
        lemma_target_for_entry(sts, c);
        let j = choose|j: int| 0 <= j < sts.len() && sts[j] == (target_for(sts, c)->Some_0, c);
        assert(sd[j] == x);
    }
}

/// Every face showing `q` is read there.
proof fn lemma_face_read(st: Seq<Color>, n: int, q: IVec3, f: Face)
    requires
        shows(f, q, n),
    ensures
        read_stickers(st, n, q).contains((face_outward(f), sticker_on(st, f, q, n))),
        read_dirs(st, n, q).to_set().contains(face_outward(f)),
        read_dirs(st, n, q).no_duplicates(),
{
    lemma_read_upto(st, n, q, 6);
    let sts = read_stickers(st, n, q);
    assert(scan_face(scan_index(f)) == f);
    let e = (face_outward(f), sticker_on(st, f, q, n));
    let j = choose|j: int| 0 <= j < sts.len() && sts[j] == e;
    assert(read_dirs(st, n, q)[j] == face_outward(f));
}

/// A piece whose rotation fits the stickers at `q` turns one of its home
/// directions onto each face that shows `q`.
proof fn lemma_outward_is_image(st: Seq<Color>, n: int, h: IVec3, q: IVec3, o: int, f: Face)
    requires
        2 <= n <= 5,
        0 <= o < 24,
        exposed_dirs(h, n).len() == exposed_dirs(q, n).len(),
        targets_exist(exposed_dirs(h, n), read_stickers(st, n, q)),
        fits(o, exposed_dirs(h, n), read_stickers(st, n, q)),
        shows(f, q, n),
    ensures
        exists|k: int|
            0 <= k < exposed_dirs(h, n).len() && apply_rot(rot_of(o), #[trigger] exposed_dirs(h, n)[k])
                == face_outward(f),
{
    let dirs = exposed_dirs(h, n);
    let img = turned(o, dirs);
    let sd = read_dirs(st, n, q);
    lemma_read_len(st, n, q);
    lemma_exposed_distinct(h, n);
    lemma_exposed_are_faces(h, n);
    lemma_turned_distinct(o, dirs);
    lemma_turned_read(st, n, q, o, dirs);
    lemma_face_read(st, n, q, f);
    img.unique_seq_to_set();
    sd.unique_seq_to_set();
    vstd::set_lib::lemma_len_subset(img.to_set(), sd.to_set());
    vstd::set_lib::lemma_subset_equality(img.to_set(), sd.to_set());
    assert(img.to_set().contains(face_outward(f)));
    let k = choose|k: int| 0 <= k < img.len() && img[k] == face_outward(f);
    assert(apply_rot(rot_of(o), dirs[k]) == face_outward(f));
}

/// The color a rebuilt piece shows on a face through its position is the
/// sticker the array has there.
proof fn lemma_piece_shows(st: Seq<Color>, n: int, k: int, f: Face)
    requires
        2 <= n <= 5,
        assembled(st, n) is Some,
        0 <= k < visible_spec(n).len(),
        shows(f, assembled(st, n)->Some_0[k].current_pos, n),
    ensures
        ({
            let c = assembled(st, n)->Some_0[k];
            color_from_direction(apply_rot(rot_of(inverse_idx(c.orientation.0 as int)), face_outward(f)))->Some_0
                == sticker_on(st, f, c.current_pos, n)
        }),
{
    let homes = visible_spec(n);
    let cs = assembled(st, n)->Some_0;
    lemma_assign_pieces(st, n, homes);
    lemma_assign_fit(st, n, homes, k);
    let c = cs[k];
    let q = c.current_pos;
    let o = c.orientation.0 as int;
    let dirs = exposed_dirs(homes[k], n);
    let sts = read_stickers(st, n, q);
    lemma_outward_is_image(st, n, homes[k], q, o, f);
    let j = choose|j: int| 0 <= j < dirs.len() && apply_rot(rot_of(o), #[trigger] dirs[j]) == face_outward(f);
    lemma_exposed_are_faces(homes[k], n);
    assert(color_from_direction(dirs[j]) is Some && bounded(dirs[j], 1));
    crate::orient::lemma_apply_inverse(o, dirs[j]);
    let col = dir_color(dirs[j]);
    assert(target_for(sts, dir_color(dirs[j])) is Some);
    lemma_target_for_entry(sts, col);
    let a = choose|a: int| 0 <= a < sts.len() && sts[a] == (target_for(sts, col)->Some_0, col);
    lemma_read_upto(st, n, q, 6);
    let t = scan_index(f);
    assert(scan_face(t) == f);
    let e = (face_outward(f), sticker_on(st, f, q, n));
    let b = choose|b: int| 0 <= b < sts.len() && sts[b] == e;
    let sd = sts.map_values(|x: (IVec3, Color)| x.0);
    assert(sd[a] == sd[b]);
}

proof fn lemma_grid_cell(f: Face, n: int, row: int, col: int)
    requires
        2 <= n <= 5,
        0 <= row < n,
        0 <= col < n,
    ensures
        shows(f, grid_pos(f, n, row, col), n),
        cell_row(f, grid_pos(f, n, row, col), n) == row,
        cell_col(f, grid_pos(f, n, row, col), n) == col,
{
}

proof fn lemma_index_parts(i: int, n: int)
    requires
        2 <= n <= 5,
        0 <= i < 6 * n * n,
    ensures
        0 <= i / (n * n) < 6,
        0 <= (i / n) % n < n,
        0 <= i % n < n,
        sticker_index(crate::facelets::face_at(i / (n * n)), n, (i / n) % n, i % n) == i,
{
    let t = i / n;
    let f = t / n;
    let row = t % n;
    let col = i % n;
    vstd::arithmetic::div_mod::lemma_fundamental_div_mod(i, n);
    vstd::arithmetic::div_mod::lemma_fundamental_div_mod(t, n);
    vstd::arithmetic::div_mod::lemma_div_denominator(i, n, n);
    assert(0 <= t < 6 * n) by (nonlinear_arith)
        requires
            0 <= i < 6 * n * n,
            t == i / n,
            n >= 2,
    ;
    assert(0 <= f < 6) by (nonlinear_arith)
        requires
            0 <= t < 6 * n,
            f == t / n,
            n >= 2,
    ;
    assert(i == f * n * n + row * n + col) by (nonlinear_arith)
        requires
            i == n * t + col,
            t == n * f + row,
    ;
    assert(crate::facelets::face_index(crate::facelets::face_at(f)) == f);
}

/// Rebuilding a cube from a sticker array and reading its stickers back
/// gives the array again, whenever the array assembles.
pub proof fn lemma_assembled_view(st: Seq<Color>, n: int)
    requires
        2 <= n <= 5,
        st.len() == facelet_count(n),
        assembled(st, n) is Some,
    ensures
        crate::facelets::sticker_view(assembled(st, n)->Some_0, n) == st,
{
    let cs = assembled(st, n)->Some_0;
    let v = crate::facelets::sticker_view(cs, n);
    lemma_assembled_wf(st, n);
    lemma_assign_pieces(st, n, visible_spec(n));
    assert(facelet_count(n) == 6 * n * n);
    assert forall|i: int| 0 <= i < st.len() implies v[i] == st[i] by {
        lemma_index_parts(i, n);
        let f = crate::facelets::face_at(i / (n * n));
        let row = (i / n) % n;
        let col = i % n;
        let q = crate::facelets::grid_pos(f, n, row, col);
        crate::facelets::lemma_grid_pos_on_shell(f, n, row, col);
        crate::facelets::lemma_first_at(cs, q);
        lemma_grid_cell(f, n, row, col);
        let k = crate::facelets::first_at(cs, q);
        lemma_piece_shows(st, n, k, f);
    }
    assert(v =~= st);
}

} // verus!
