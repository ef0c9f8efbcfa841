//! Run configuration, as plain values. Flag parsing itself happens outside
//! the verified library; the engine only consumes the parsed result.

use vstd::prelude::*;

verus! {

/// The run's configuration.
pub struct Arguments {
    /// Max number of recent files to list per program (0 = unlimited).
    pub limit: usize,
    /// Programs to exclude, space-separated.
    pub exclude: String,
    /// Show paths for all files, collisions or not.
    pub show_all_paths: bool,
    /// Command to run (program + file); empty means: print the listing.
    pub command: Vec<String>,
}

} // verus!
