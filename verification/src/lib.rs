//! Compaction scheduling core of a leveled LSM storage engine.
//!
//! The library decides which immutable sorted files (SSTs) to merge, tracks
//! which files are reserved by an in-flight merge task, and produces a new,
//! consistent version record once a merge completes.

pub mod key_range;
pub mod level;
pub mod level_handler;
pub mod picker;
pub mod compact_status;
pub mod codec;
pub mod data_type;
pub mod plan_node;
