//! Run a user command across a set of immutable revisions.
//!
//! The crate models the core of a "run-across-revisions" engine for a
//! content-addressed version-control system: each selected commit's tree is
//! materialized as an independent working copy, a command is run against each
//! one, the file-level changes every invocation produced are collected, and
//! the collected changes are folded back into rewritten descendant commits
//! while the commit graph's ancestry and content-addressing invariants are
//! preserved.
//!
//! Commits, trees and files are identified by plain numeric ids; an embedding
//! host owns the on-disk layout, the external processes and their captured
//! output streams, and hands the engine the per-commit outcomes as values.

pub mod changes;
pub mod cli;
pub mod collector;
pub mod engine;
pub mod fingerprint;
pub mod jobs;
pub mod repo;
pub mod rewriter;
pub mod scheduler;
pub mod store;
pub mod tree;
