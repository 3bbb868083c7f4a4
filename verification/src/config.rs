//! The layout of the array of one index.

use vstd::prelude::*;

use crate::index::Index;

verus! {

/// How one index is laid out as a chunked array of unsigned 64-bit elements.
pub struct Config {
    /// Rows and columns of the array.
    pub shape: Vec<u64>,
    /// The lengths of the chunks along the rows, in ascending id order: the
    /// chunk of an id ends where the rows of that id end.
    pub chunk_sizes: Vec<u64>,
    /// The length of every chunk along the columns.
    pub chunk_width: u64,
    /// The element of a cell that was never written.
    pub fill_value: u64,
    /// The position that leads the index.
    pub index: Index,
}

/// The number of columns of an index: the two components beside the leading
/// one.
pub const COLUMNS: u64 = 2;

/// The element of a cell that was never written.
pub const FILL_VALUE: u64 = 0;

/// The level at which the chunks are compressed.
pub const COMPRESSION_LEVEL: u32 = 5;

} // verus!
