//! 3×3 two-phase solver: phase 1 reduces to `G1 = <U, D, R2, L2, F2, B2>`,
//! phase 2 finishes with `G1` moves only.

pub mod state;
pub mod coords;
pub mod moves;
pub mod tables;
pub mod solver;
pub mod cache;
pub mod tracking;
