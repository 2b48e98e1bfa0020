//! Command-line options, as plain data. The binary front end carries a copy
//! of these types with its argument-parser derives and converts into them.

use vstd::prelude::*;

verus! {

/// What the tool has been asked to do.
#[derive(Debug, Clone, PartialEq)]
pub enum Commands {
    /// Render a document image from a marked-up text file.
    Generate {
        /// Input text file path.
        input: String,
        /// Output image file path, if given.
        output: Option<String>,
        /// Whether to draw redaction bars.
        redact: bool,
        /// Whether to simulate scan artifacts.
        simulate_scan: bool,
    },
    /// Print the classified blocks of a marked-up text file.
    Preview {
        /// Input text file path.
        input: String,
    },
}

/// Top-level command-line options.
#[derive(Debug, Clone, PartialEq)]
pub struct Cli {
    /// Verbose progress output.
    pub verbose: bool,
    /// The requested action.
    pub command: Commands,
}

} // verus!
