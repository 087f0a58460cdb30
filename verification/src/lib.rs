//! Call graphs of single source files.
//!
//! The text of a file is scanned line by line for function definitions and
//! for calls between the functions found (`parser`). The result is a
//! `CallGraph` (`graph`), which can be cached under the fingerprint of the
//! content (`cache`) and read for its roots, its call tree and its orphans
//! (`analysis`, `tree`, `report`, `reach`). `chunk` plans how a file is read
//! in pieces and puts the pieces together.

pub mod analysis;
pub mod cache;
pub mod chunk;
pub mod cli;
pub mod config;
pub mod error;
pub mod file_info;
pub mod graph;
pub mod lang;
pub mod parser;
pub mod reach;
pub mod report;
pub mod scan_facts;
pub mod text;
pub mod tree;

pub use crate::analysis::find_roots;
pub use crate::graph::{CallGraph, FnInfo};
pub use crate::tree::print_tree;
