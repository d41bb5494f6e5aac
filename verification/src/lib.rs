//! Verified core of the tightbeam extensions: the MPC bytecode VM (its
//! instruction set, DER wire format, static validation and program
//! builder), the topic pub/sub bookkeeping, the MPC session and
//! roster rules, and the version choices of frame composition.

pub mod compose;
pub mod mpc;
pub mod pubsub;
pub mod text;
pub mod vm;

