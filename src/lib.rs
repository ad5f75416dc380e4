//! A cooperative, stackful fiber runtime: a fixed pool of execution slots,
//! each with its own stack and saved register file, scheduled round robin on
//! one OS thread.
//!
//! This crate holds the verified part: the per-slot state machine, the
//! round-robin scheduler and the priming of a fresh fiber's stack. The
//! register handoff itself is performed by the host around these decisions:
//! every scheduling operation returns the `Switch` to perform.

pub mod context;
pub mod runtime;

pub use context::{prime_stack, State, Thread, ThreadContext, DEFAULT_STACK_SIZE, MIN_STACK_SIZE};
pub use runtime::{Runtime, SpawnError, Switch, DEFAULT_CAPACITY};
