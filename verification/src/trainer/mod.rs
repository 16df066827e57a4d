//! Speedcubing trainer logic: session statistics with WCA averages, the
//! solve timer's state machine, per-case drill statistics, the session
//! decisions taken on input, and clock readings of solve times.

pub mod stats;
pub mod timer;
pub mod drill;
pub mod session;
pub mod clock;
