//! The values handed in from the command line, once parsed.

use vstd::prelude::*;

verus! {

/// A post-detection pass asked for on the command line.
#[derive(Debug, Clone)]
pub enum SubCommand {
    Scrubb(Scrubb),
    Filter(Filter),
    Extract(Extract),
    Split(Split),
}

/// Inputs of the scrubbing pass.
#[derive(Debug, Clone)]
pub struct Scrubb {
    pub input: String,
    pub output: String,
}

/// Inputs of the filtering pass.
#[derive(Debug, Clone)]
pub struct Filter {
    pub input: String,
    pub output: String,
}

/// Inputs of the extraction pass.
#[derive(Debug, Clone)]
pub struct Extract {
    pub input: String,
    pub output: String,
}

/// Inputs of the splitting pass.
#[derive(Debug, Clone)]
pub struct Split {
    pub input: String,
    pub output: String,
}

} // verus!
