//! The run's arguments: the selected year and the shell keyword.
//!
//! Parsing the command line fills one of these in; the library only needs
//! the values.

use vstd::prelude::*;

verus! {

/// The arguments one run works with.
pub struct Cli {
    /// The selected year; 0 selects the current year.
    pub year: i32,
    /// The shell or history tool keyword.
    pub shell: String,
}

} // verus!
