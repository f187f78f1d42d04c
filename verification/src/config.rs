//! User configuration data: which providers to read and from which files.
//!
//! Reading and writing the configuration file is the caller's business;
//! the shapes live here so the rest of the library can speak of them.

use vstd::prelude::*;

verus! {

/// One configured history provider and its history files.
pub struct Provider {
    pub name: String,
    pub history_files: Vec<String>,
}

/// The persisted user configuration.
pub struct Config {
    pub providers: Vec<Provider>,
}

} // verus!
