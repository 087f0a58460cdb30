//! What the engine is told to do, derived from the caller's options.

use vstd::prelude::*;
use crate::cli::Cli;

verus! {

/// Settings of the engine.
#[derive(Debug)]
pub struct Config {
    /// Look a cached graph up before parsing, and store the graph after.
    pub enable_cache: bool,
}

impl From<&Cli> for Config {
    fn from(cli: &Cli) -> (config: Self) {
        Self { enable_cache: !cli.no_cache }
    }
}

impl vstd::std_specs::convert::FromSpecImpl<&Cli> for Config {
    open spec fn obeys_from_spec() -> bool {
        true
    }

    open spec fn from_spec(cli: &Cli) -> Self {
        Config { enable_cache: !cli.no_cache }
    }
}

} // verus!
