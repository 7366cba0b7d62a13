use vstd::prelude::*;

verus! {

/// The closed set of failures that the task store reports.
#[derive(Clone, Copy, Debug, PartialEq, Eq, Structural)]
pub enum TdError {
    /// A 1-based task index was zero or past the end of the list.
    InvalidIndex,
    /// A stored task document exists but does not follow the expected layout.
    ParseError,
    /// A filesystem read, write or directory creation failed.
    IOError,
}

} // verus!
