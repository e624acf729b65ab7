//! Tracking of the resources used by the commands that a shell runs.
//!
//! Events are recorded by forked processes in a region of shared memory,
//! drained by the shell, and assembled into a bounded history.

pub mod bytetables;
pub mod config;
pub mod decimal;
pub mod format;
pub mod generator;
pub mod history;
pub mod ipc;
pub mod procs;
pub mod rusage;
pub mod text;
pub mod time;
