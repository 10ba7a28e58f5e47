//! A fine-grained reactive runtime: observable state cells ("signals") and
//! derived computations ("effects") that track their read-dependencies
//! automatically and re-run when a cell they read is written.
//!
//! The engine owns all state in a single [`engine::Runtime`] value; cells and
//! computations are addressed by id, and the subscription relation between
//! them is a deduplicated edge list. Effect bodies are small [`ops::Op`]
//! programs interpreted by the engine, so the whole propagation machinery
//! (tracking stack, pending set, drain loop) is verified.

pub mod engine;
pub mod laws;
pub mod ops;
