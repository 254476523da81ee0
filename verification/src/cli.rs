//! The command-line surface: one command, `run`.
use vstd::prelude::*;

verus! {

/// How many times each measurement is repeated unless told otherwise.
pub const DEFAULT_REPEATS: usize = 3;

/// zkbench: a performance profiler for Noir ZK circuits (nargo +
/// Barretenberg).
pub struct Cli {
    pub command: Command,
}

pub enum Command {
    /// Measure proof generation for a single circuit and print a report.
    Run {
        /// Path to the circuit directory (the folder that contains
        /// Nargo.toml).
        circuit_dir: String,
        /// How many times to repeat each measurement. The first run is
        /// discarded (cold CRS download / cold cache), and the rest are
        /// reduced to their median. Minimum 1.
        repeats: usize,
    },
}

} // verus!
