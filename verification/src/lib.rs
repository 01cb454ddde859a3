//! Compaction planning for a time-series storage engine.
//!
//! Given the immutable, time-ranged data files of one partition, the planner
//! decides what a compaction round does: which level to start from, whether
//! the start-level files must first be split along time boundaries, and how
//! much may be grouped into one plan. Every decision is a function of the file
//! metadata alone, and each function carries a machine-checked contract.
//!
//! - [`file`]: the metadata of a file, and sums and counts over files.
//! - [`chains`]: groups of files that overlap in time.
//! - [`level`]: the level that a round starts from.
//! - [`small_files`]: backlogs of many small files.
//! - [`times`], [`ranges`], [`split_times`], [`vertical`]: where files are
//!   split in time.
//! - [`round_info`]: the decision for a round, and the round itself.
//! - [`bits`], [`bitset`]: a set of bits in Arrow's layout.

pub mod bits;
pub mod bitset;
pub mod chains;
pub mod file;
pub mod level;
pub mod ranges;
pub mod round_info;
pub mod small_files;
pub mod split_times;
pub mod times;
pub mod vertical;
