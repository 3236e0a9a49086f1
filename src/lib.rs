//! Execution, cancellation and output-streaming logic for running shell
//! command lines against a non-interactive shell engine.
//!
//! The engine itself, the pipes and the timers live with the host; this crate
//! holds the decisions: how raw output bytes become text, which variables reach
//! the engine, how a run's outcome is reported and whether its session is kept.

pub mod chars;
pub mod builtins;
pub mod coordinator;
pub mod decimal;
pub mod decode;
pub mod env;
pub mod windows;
