//! Integer lattice vectors used for cubie positions and face directions.

use vstd::prelude::*;

verus! {

/// A vector on the integer lattice.
#[derive(Debug, Clone, Copy, PartialEq, Eq, Hash, Structural)]
pub struct IVec3 {
    pub x: i32,
    pub y: i32,
    pub z: i32,
}

/// Component `axis` (0 = x, 1 = y, otherwise z) of a vector.
pub open spec fn comp(v: IVec3, axis: int) -> int {
    if axis == 0 {
        v.x as int
    } else if axis == 1 {
        v.y as int
    } else {
        v.z as int
    }
}

/// Every component of `v` lies in `-bound..=bound`.
pub open spec fn bounded(v: IVec3, bound: int) -> bool {
    -bound <= v.x <= bound && -bound <= v.y <= bound && -bound <= v.z <= bound
}

pub open spec fn ivec(x: int, y: int, z: int) -> IVec3 {
    IVec3 { x: x as i32, y: y as i32, z: z as i32 }
}

impl IVec3 {
    pub fn zero() -> (r: IVec3)
        ensures
            r == ivec(0, 0, 0),
    {
        IVec3 { x: 0, y: 0, z: 0 }
    }

    /// Unit vector along `+axis` (`sign` = 1) or `-axis` (`sign` = -1).
    pub fn unit(axis: usize, sign: i32) -> (r: IVec3)
        requires
            axis < 3,
            sign == 1 || sign == -1,
        ensures
            comp(r, axis as int) == sign,
            forall|k: int| 0 <= k < 3 && k != axis ==> comp(r, k) == 0,
            bounded(r, 1),
    {
        if axis == 0 {
            IVec3 { x: sign, y: 0, z: 0 }
        } else if axis == 1 {
            IVec3 { x: 0, y: sign, z: 0 }
        } else {
            IVec3 { x: 0, y: 0, z: sign }
        }
    }

    pub fn new(x: i32, y: i32, z: i32) -> (r: IVec3)
        ensures
            r == (IVec3 { x, y, z }),
    {
        IVec3 { x, y, z }
    }

    /// Component along `axis` (0 = x, 1 = y, 2 = z).
    pub fn component(self, axis: usize) -> (r: i32)
        requires
            axis < 3,
        ensures
            r == comp(self, axis as int),
    {
        if axis == 0 {
            self.x
        } else if axis == 1 {
            self.y
        } else {
            self.z
        }
    }

    /// Dot product with a unit axis vector (every component in `-1..=1`).
    pub fn dot_unit(self, unit: IVec3) -> (r: i32)
        requires
            bounded(unit, 1),
            bounded(self, 0x1000_0000),
        ensures
            r == self.x * unit.x + self.y * unit.y + self.z * unit.z,
    {
        proof {
            assert(-0x1000_0000 <= self.x * unit.x <= 0x1000_0000) by (nonlinear_arith)
                requires
                    -1 <= unit.x <= 1,
                    -0x1000_0000 <= self.x <= 0x1000_0000,
            ;
            assert(-0x1000_0000 <= self.y * unit.y <= 0x1000_0000) by (nonlinear_arith)
                requires
                    -1 <= unit.y <= 1,
                    -0x1000_0000 <= self.y <= 0x1000_0000,
            ;
            assert(-0x1000_0000 <= self.z * unit.z <= 0x1000_0000) by (nonlinear_arith)
                requires
                    -1 <= unit.z <= 1,
                    -0x1000_0000 <= self.z <= 0x1000_0000,
            ;
        }
        self.x * unit.x + self.y * unit.y + self.z * unit.z
    }
}

} // verus!
