//! Named inputs and outputs, as a command line resolves them.
//!
//! The front end turns `-` and file-name arguments into these plain values;
//! opening them is the front end's business, not the library's.

use vstd::prelude::*;

verus! {

/// Where input comes from.
#[derive(Clone, Debug, PartialEq, Eq)]
pub enum InputArg {
    /// Standard input.
    Stdin,
    /// The file with this name.
    File(String),
}

/// Where output goes.
#[derive(Clone, Debug, PartialEq, Eq)]
pub enum OutputArg {
    /// Standard output.
    Stdout,
    /// The file with this name; `true` appends instead of truncating.
    File(String, bool),
}

} // verus!
