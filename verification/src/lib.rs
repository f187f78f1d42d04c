//! Statistics over a shell's command history.
//!
//! The library reconstructs timestamped command invocations from the text
//! formats of several history sources (zsh, bash, atuin, fish) and folds
//! them into time-bucketed usage counters.  Reading the history itself is
//! left to the caller: the pieces here work on plain lines of bytes.

pub mod cli;
pub mod config;
pub mod history;
pub mod laws;
pub mod parser;
pub mod stats;
pub mod text;
pub mod time;

use vstd::prelude::*;

verus! {

/// What can go wrong while acquiring and parsing a history.
///
/// `SourceUnavailable` and `UnsupportedProvider` are fatal to a run and
/// raised by the caller that does the reading; `ParseError` marks one
/// malformed block or segment, which is skipped.
#[derive(Clone, Copy, Debug, PartialEq, Eq, Structural)]
pub enum HistoryError {
    SourceUnavailable,
    UnsupportedProvider,
    ParseError,
}

} // verus!
