//! The failures that ingestion can end in.

use vstd::prelude::*;

verus! {

/// Why a field, a row or a run was rejected.
#[derive(Clone, Copy, Debug, PartialEq, Eq, Structural)]
pub enum IngestError {
    /// A field does not have the shape it must have: a coordinate payload
    /// with the wrong number of commas, a timestamp whose digit runs and
    /// delimiters do not line up.
    Format,
    /// Text that should be a number is not one, or does not fit its type.
    NumericParse,
    /// The date components name no instant of the UTC calendar.
    InvalidCalendarDate,
    /// A row lacks one of its four fields.
    MissingField,
    /// Reading or decompressing the input failed.
    Io,
    /// The store refused a transaction, an insert or a commit.
    Storage,
}

} // verus!
