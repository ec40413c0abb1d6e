//! Core of a parallel external line sort, with the shared plumbing around it.
//!
//! The centrepiece is the sort engine: a chunked source that splits byte
//! streams into delimiter-aligned blocks, sorted runs that can spill to
//! temporary storage, a k-way merge, and the orchestrator that drives them.
//! Beside it stand the job-submission interface that a worker pool consumes,
//! the named input/output arguments that a command-line front end resolves,
//! and the counting routines shared with the word-count tool.

pub mod batch;
pub mod chunks;
pub mod du;
pub mod executor;
pub mod io;
pub mod line;
pub mod merge;
pub mod pipeline;
pub mod run;
pub mod spill;
pub mod wc;

pub use io::{InputArg, OutputArg};
