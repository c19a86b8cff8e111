//! How much of an item's documentation is shown.

use vstd::prelude::*;

verus! {

/// Controls the verbosity level of documentation display.
#[derive(Debug, Clone, Copy, PartialEq, Eq, Structural)]
pub enum Verbosity {
    /// The structure only.
    Minimal,
    /// Documentation cut to its beginning, with a note of what was left out.
    Brief,
    /// The documentation in full.
    Full,
}

impl Default for Verbosity {
    fn default() -> (r: Self)
        ensures
            r == Verbosity::Brief,
    {
        Verbosity::Brief
    }
}

} // verus!
