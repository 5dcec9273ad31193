//! The ways in which reading a stream can end.

use vstd::prelude::*;

verus! {

/// Why a read or a decompression stopped.
#[derive(Debug, Clone, Copy, PartialEq, Eq, Structural)]
pub enum LzwError {
    /// The source holds fewer bits than were asked for.
    UnexpectedEof,
    /// A code refers to a table entry that cannot exist yet.
    InvalidCode,
    /// The table holds every code that fits in a `Code` and cannot grow.
    TableFull,
}

} // verus!
