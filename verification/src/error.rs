//! What can go wrong while decoding.

use vstd::prelude::*;

verus! {

/// A failure to decode a record. After one, the reader that reported it
/// yields no further record.
#[derive(Clone, Copy, Debug, PartialEq, Eq)]
pub enum Error {
    /// A field of a text record is missing or is not a number.
    FieldParse {
        /// The line of the record, counted from the header, which is line 0.
        line: usize,
        /// The position of the field in the record, counted from 0.
        field: usize,
    },
    /// A binary record stops before its last byte.
    Truncated {
        /// The byte offset in the source at which the incomplete record begins.
        offset: usize,
    },
}

} // verus!
