//! The failures that the streams and the partitioners report.

use vstd::prelude::*;

verus! {

/// Why an operation on a stream did not succeed.
#[derive(Clone, Copy, Debug, PartialEq, Eq, Structural)]
pub enum StreamError {
    /// The data is not what the operation can work on: malformed padding, a
    /// stream that does not end on a block boundary.
    InvalidData,
    /// An inner stream handed over a number of bytes that it may not.
    InvalidInput,
    /// The underlying source or sink failed.
    Io,
}

} // verus!
