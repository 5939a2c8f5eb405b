//! A verified core for a process-tracking tool.
//!
//! A *process* is a named unit of work made of ordered, describable *steps*.
//! The heart of the crate is [`store::Store`], an in-memory relational store
//! of two tables (processes and steps) linked by a nullable foreign key.
//! Every operation carries a contract stating exactly how it changes the
//! tables and when each error is returned.
//!
//! The store is single-threaded and synchronous: each operation completes
//! fully before returning, and nothing here coordinates two programs
//! working on the same persisted data — that is a known limitation, left to
//! the storage engine's own locking.

pub mod delete;
pub mod done;
pub mod error;
pub mod laws;
pub mod parsed;
pub mod process;
pub mod row;
pub mod seqs;
pub mod step;
pub mod store;
pub mod update;
