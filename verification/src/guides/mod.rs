//! Learning curriculum: goal predicates evaluated on a live cube, and the
//! algorithm library.

pub mod algs;
pub mod goals;
