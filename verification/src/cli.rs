//! The options that a caller chooses for one run.

use vstd::prelude::*;
use std::path::PathBuf;

verus! {

/// How much detail a report shows.
#[derive(Copy, Clone, Debug, PartialEq, Eq)]
pub enum InfoLevel {
    L1,
    L2,
    L3,
}

/// The options of one run, as the caller gave them.
#[derive(Debug)]
pub struct Cli {
    /// Path of the file to analyse.
    pub file_path: PathBuf,
    pub info_level: InfoLevel,
    /// Number of readers when the file is read in chunks.
    pub threads: usize,
    /// Size of a chunk, in units of 1024 bytes.
    pub block_size_kb: usize,
    /// Leave the cache alone.
    pub no_cache: bool,
    /// Read the file in chunks.
    pub parallel_read: bool,
}

} // verus!
