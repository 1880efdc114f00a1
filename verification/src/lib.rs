//! An incremental, dependency-ordered build orchestrator.
//!
//! Packages ([`package::Bobje`]) are turned into build actions
//! ([`task::Task`]) by language backends (the Java backend in [`java`]).
//! The executor ([`executor::Executor`]) derives dependency edges from the
//! tasks' declared input and output paths, rejects output collisions and
//! dependency cycles, and decides which tasks are stale against a snapshot
//! of filesystem modification times ([`stale`]).  The driver around the
//! library performs the filesystem reads and launches the subprocesses;
//! everything that decides is in here and verified.

pub mod paths;
pub mod model;
pub mod task;
pub mod executor;
pub mod stale;
pub mod runstate;
pub mod package;
pub mod scan;
pub mod java;
pub mod laws;
pub mod terminal;
