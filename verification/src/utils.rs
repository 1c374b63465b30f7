//! Structured errors reported by normalization and indexing.

use vstd::prelude::*;

verus! {

/// The taxonomy of failures detected while validating raw records:
/// a required field absent or of the wrong shape, a referenced section
/// absent from the record lookup, or a clock value that is not in the
/// expected digit encoding.
#[derive(Clone, Copy, Debug, PartialEq, Eq, Structural)]
pub enum ErrorKind {
    MalformedInput,
    UnknownReference,
    UnparsableTime,
}

/// An error, carrying its kind and a short description naming the field
/// or reference that failed.
#[derive(Clone, Copy, Debug)]
pub struct SolveError {
    pub kind: ErrorKind,
    pub msg: &'static str,
}

impl SolveError {
    /// A human-readable rendering of the error.
    pub fn message(&self) -> (r: &'static str)
        ensures
            r == self.msg,
    {
        self.msg
    }
}

} // verus!
