//! The errors of the library.

use vstd::prelude::*;

verus! {

/// What went wrong, with a sentence for the reader.
#[derive(Debug, PartialEq, Eq)]
pub enum MyuError {
    /// A text is no formula.
    McfParseError(String),
    /// A text is no labeled transition system.
    LtsParseError(String),
}

} // verus!
