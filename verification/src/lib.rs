//! A concurrent task harness as a verified state machine.
//!
//! A task is described by an id and a number of work units. Once launched it
//! alternates between suspending for a fixed interval and emitting a numbered
//! progress event, and ends by yielding its id. The harness owns every launched
//! task, advances whichever one the caller's runtime woke up, and records the
//! completions in the order in which they arrive.
//!
//! Nothing here sleeps, logs or spawns: each call returns the next step of a
//! task, and the caller carries it out.

pub mod decimal;
pub mod descriptor;
pub mod harness;
pub mod model;
pub mod step;
pub mod task;
