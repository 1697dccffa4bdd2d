//! Core logic of a one-shot screenshot collector: it validates a launcher
//! root and a destination directory, and plans the copy of every file found
//! in each instance's media subdirectory into the flat destination, skipping
//! names that are already present there.
//!
//! All filesystem access lives outside this crate: callers observe the disk,
//! hand the observations in as plain values, and carry out the planned
//! copies. The decision logic here is verified.

pub mod config;
pub mod engine;
