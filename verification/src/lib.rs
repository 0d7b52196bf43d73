//! A strict round-robin turn ring: a fixed set of workers shares one
//! resource, and an explicit per-worker permission flag is handed around a
//! fixed cycle so that the workers act one at a time, in order.
//!
//! The [`ring`] module holds the coordinator state and its transitions; the
//! [`laws`] module proves the protocol-level guarantees (termination, the
//! round-robin action order, and the behaviour of starved or single-worker
//! rings).

pub mod laws;
pub mod ring;
