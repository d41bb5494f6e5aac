//! The bytecode VM for HoneyBadgerMPC programs: instruction set, wire
//! codec, static validation, the interpreter state machine, and fluent
//! program construction.

pub mod error;
pub mod isa;
pub mod der;
pub mod wire;
pub mod codec;
pub mod control;
pub mod validate;
pub mod executor;
pub mod interpreter;
pub mod bitdec;
pub mod combine;
pub mod builder;
pub mod circuits;
pub mod party;
pub mod lookup;
pub mod opening;
pub mod submission;
