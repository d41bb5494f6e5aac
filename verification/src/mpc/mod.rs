//! MPC adapter rules: the roster and its dial rule, payload lane framing,
//! the round lifecycle, the trace event catalog, and the adapter's
//! failures.

pub mod error;
pub mod frame;
pub mod roster;
pub mod session;
pub mod trace;
