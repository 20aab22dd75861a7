//! Detection of chimeric and weakly covered long reads from pairwise
//! overlap records.
//!
//! Overlap intervals are accumulated per read in an overlap store (fully
//! in memory, or paged to disk through an embedded key-value store).  A
//! sweep over the sorted intervals of one read yields its "bad regions":
//! maximal spans whose coverage depth stays at or below a configured
//! threshold.  A read is then labelled `Chimeric` when a bad region sits
//! strictly inside it, `NotCovered` when the total bad length exceeds a
//! configured fraction of the read length, and `NotBad` otherwise.

pub mod chimera;
pub mod cli;
pub mod editor;
pub mod error;
pub mod extract;
pub mod file;
pub mod filter;
pub mod laws;
pub mod overlap;
pub mod postdetection;
pub mod reads2ovl;
pub mod stack;
pub mod subcommand;
pub mod split;
pub mod sweep;
pub mod text;
pub mod util;
pub mod utils;


