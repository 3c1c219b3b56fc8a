//! The ways in which a text can fail to have the shape of the tool's output.

use vstd::prelude::*;

verus! {

/// Why a text could not be read as commit records.
#[derive(Clone, Copy, Debug, PartialEq, Eq)]
pub enum ParseError {
    /// A record has fewer lines than it has fields.
    MissingField,
    /// The timestamp line of a record is no count.
    InvalidTimestamp,
    /// A line of the statistics table has fewer than three tokens.
    InvalidStatLine,
}

} // verus!
