//! The layer move a sticker drag asks for: the layer through the picked
//! piece across the drag direction, turned the way that carries the piece
//! furthest along the drag.

use vstd::prelude::*;
use crate::moves::{Face, Move, Turn, move_rotation};
use crate::orient::{apply_rot, rot_of};
use crate::vec3::{IVec3, bounded, comp};

verus! {

pub open spec fn positive_face(axis: int) -> Face {
    if axis == 0 {
        Face::R
    } else if axis == 1 {
        Face::U
    } else {
        Face::F
    }
}

pub open spec fn negative_face(axis: int) -> Face {
    if axis == 0 {
        Face::L
    } else if axis == 1 {
        Face::D
    } else {
        Face::B
    }
}

/// Integer division rounding toward zero.
pub open spec fn tdiv2(x: int) -> int {
    if x >= 0 {
        x / 2
    } else {
        -((-x) / 2)
    }
}

/// The layer through a piece at coordinate `c` on `axis`: the outer layer
/// at either end, the middle slice at 0, otherwise an inner layer counted
/// from the nearer face.
pub open spec fn drag_slice(c: int, size: int, axis: int) -> (Face, u8) {
    let outer = size - 1;
    if c == outer {
        (positive_face(axis), 1u8)
    } else if c == -outer {
        (negative_face(axis), 1u8)
    } else if c == 0 {
        (positive_face(axis), ((size + 1) / 2) as u8)
    } else if c > 0 {
        (positive_face(axis), tdiv2(size + 1 - c) as u8)
    } else {
        (negative_face(axis), tdiv2(size + 1 + c) as u8)
    }
}

/// How far turn `t` of the layer carries the piece along the drag.
#[verifier::opaque]
pub open spec fn alignment(pos: IVec3, layer: (Face, u8), t: Turn, along: int, sign: int) -> int {
    let m = Move { face: layer.0, turn: t, depth: layer.1, wide: false };
    sign * (comp(apply_rot(rot_of(move_rotation(m)), pos), along) - comp(pos, along))
}

/// The first of clockwise, counter-clockwise and half turn with the
/// largest positive alignment; `None` when no turn moves the piece along
/// the drag.
pub open spec fn best_turn(cw: int, ccw: int, half: int) -> Option<Turn> {
    let b1: Option<(Turn, int)> = if cw > 0 {
        Some((Turn::Cw, cw))
    } else {
        None
    };
    let b2 = if ccw > 0 && (b1 is None || ccw > b1->Some_0.1) {
        Some((Turn::Ccw, ccw))
    } else {
        b1
    };
    let b3 = if half > 0 && (b2 is None || half > b2->Some_0.1) {
        Some((Turn::Half, half))
    } else {
        b2
    };
    match b3 {
        Some((t, _)) => Some(t),
        None => None,
    }
}

/// The two axes other than `face_axis`, in increasing order.
pub open spec fn in_plane_axes(face_axis: int) -> (int, int) {
    if face_axis == 0 {
        (1, 2)
    } else if face_axis == 1 {
        (0, 2)
    } else {
        (0, 1)
    }
}

/// The move for a drag on a sticker facing along `face_axis`: the drag
/// runs along the first in-plane axis when `along_first`, otherwise along
/// the second, in direction `sign`; the turned layer lies across it.
pub open spec fn drag_move_spec(pos: IVec3, face_axis: int, along_first: bool, sign: int, size: int) -> Option<Move> {
    let (u, v) = in_plane_axes(face_axis);
    let (along, across) = if along_first {
        (u, v)
    } else {
        (v, u)
    };
    let layer = drag_slice(comp(pos, across), size, across);
    match best_turn(
        alignment(pos, layer, Turn::Cw, along, sign),
        alignment(pos, layer, Turn::Ccw, along, sign),
        alignment(pos, layer, Turn::Half, along, sign),
    ) {
        Some(t) => Some(Move { face: layer.0, turn: t, depth: layer.1, wide: false }),
        None => None,
    }
}

/// Axis (0 = x, 1 = y, 2 = z) of a face direction: the first nonzero
/// component, z when all are zero.
pub fn face_axis_of(world_face: IVec3) -> (r: usize)
    ensures
        r == (if world_face.x != 0 {
            0usize
        } else if world_face.y != 0 {
            1usize
        } else {
            2usize
        }),
{
    if world_face.x != 0 {
        0
    } else if world_face.y != 0 {
        1
    } else {
        2
    }
}

fn positive_face_on_axis(axis: usize) -> (r: Face)
    ensures
        r == positive_face(axis as int),
{
    if axis == 0 {
        Face::R
    } else if axis == 1 {
        Face::U
    } else {
        Face::F
    }
}

fn negative_face_on_axis(axis: usize) -> (r: Face)
    ensures
        r == negative_face(axis as int),
{
    if axis == 0 {
        Face::L
    } else if axis == 1 {
        Face::D
    } else {
        Face::B
    }
}

fn component(v: IVec3, axis: usize) -> (r: i32)
    ensures
        r == comp(v, axis as int),
{
    if axis == 0 {
        v.x
    } else if axis == 1 {
        v.y
    } else {
        v.z
    }
}

/// Pick the move for a drag on the piece at `cubie_pos`, on a sticker
/// facing along `face_axis`. The caller has read the drag direction:
/// `along_first` when it runs mostly along the first in-plane axis, and
/// `sign` its direction there.
pub fn drag_move(cubie_pos: IVec3, face_axis: usize, along_first: bool, sign: i32, size: u8) -> (r: Option<Move>)
    requires
        bounded(cubie_pos, 0x3fff_ffff),
        sign == 1 || sign == -1,
    ensures
        r == drag_move_spec(cubie_pos, face_axis as int, along_first, sign as int, size as int),
{
    let (axis_u, axis_v): (usize, usize) = if face_axis == 0 {
        (1, 2)
    } else if face_axis == 1 {
        (0, 2)
    } else {
        (0, 1)
    };
    let (along, across) = if along_first {
        (axis_u, axis_v)
    } else {
        (axis_v, axis_u)
    };
    let c = component(cubie_pos, across);
    let (slice_face, depth) = layer_of(c, size, across);
    let ghost layer = drag_slice(comp(cubie_pos, across as int), size as int, across as int);
    assert((slice_face, depth) == layer);
    let a_cw = turn_alignment(cubie_pos, slice_face, depth, Turn::Cw, along, sign);
    let a_ccw = turn_alignment(cubie_pos, slice_face, depth, Turn::Ccw, along, sign);
    let a_half = turn_alignment(cubie_pos, slice_face, depth, Turn::Half, along, sign);
    let mut best: Option<(Turn, i64)> = if a_cw > 0 {
        Some((Turn::Cw, a_cw))
    } else {
        None
    };
    let ccw_better = match best {
        None => a_ccw > 0,
        Some((_, a)) => a_ccw > 0 && a_ccw > a,
    };
    if ccw_better {
        best = Some((Turn::Ccw, a_ccw));
    }
    let half_better = match best {
        None => a_half > 0,
        Some((_, a)) => a_half > 0 && a_half > a,
    };
    if half_better {
        best = Some((Turn::Half, a_half));
    }
    match best {
        Some((t, _)) => Some(Move { face: slice_face, turn: t, depth, wide: false }),
        None => None,
    }
}

/// The layer through a piece at coordinate `c` on axis `across`.
fn layer_of(c: i32, size: u8, across: usize) -> (r: (Face, u8))
    ensures
        r == drag_slice(c as int, size as int, across as int),
{
    let outer = size as i32 - 1;
    if c == outer {
        (positive_face_on_axis(across), 1)
    } else if c == -outer {
        (negative_face_on_axis(across), 1)
    } else if c == 0 {
        (positive_face_on_axis(across), ((size as u16 + 1) / 2) as u8)
    } else if c > 0 {
        let x: i64 = size as i64 + 1 - c as i64;
        let q: i64 = if x >= 0 {
            x / 2
        } else {
            -((-x) / 2)
        };
        (positive_face_on_axis(across), #[verifier::truncate] (q as u8))
    } else {
        let x: i64 = size as i64 + 1 + c as i64;
        let q: i64 = if x >= 0 {
            x / 2
        } else {
            -((-x) / 2)
        };
        (negative_face_on_axis(across), #[verifier::truncate] (q as u8))
    }
}

/// How far turn `turn` of the layer `(face, depth)` carries the piece at
/// `pos` along axis `along`, counted in direction `sign`.
fn turn_alignment(pos: IVec3, face: Face, depth: u8, turn: Turn, along: usize, sign: i32) -> (r: i64)
    requires
        bounded(pos, 0x3fff_ffff),
        sign == 1 || sign == -1,
    ensures
        r == alignment(pos, (face, depth), turn, along as int, sign as int),
{
    let m = Move { face, turn, depth, wide: false };
    proof {
        reveal(alignment);
        crate::orient::lemma_apply_bounded(move_rotation(m), pos, 0x3fff_ffff);
    }
    let new_pos = m.rotation().apply(pos);
    let motion: i64 = component(new_pos, along) as i64 - component(pos, along) as i64;
    if sign == 1 {
        motion
    } else {
        -motion
    }
}

} // verus!
