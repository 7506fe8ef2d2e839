//! The failures that the library reports.

use vstd::prelude::*;


verus! {

/// The ways in which decoding or collating RAD data can fail.
#[derive(Clone, Copy, Debug, PartialEq, Eq, Structural)]
pub enum RadError {
    /// The input ended before the value being read was complete.
    ShortRead,
    /// An output stage that buffers bytes reported a failure.
    IoError,
    /// A header or tag name is not valid UTF-8.
    MalformedHeader,
    /// A record, a permit-list line or a chunk cannot be represented in the
    /// format (a size that does not fit its field, a barcode of the wrong
    /// length or alphabet).
    MalformedRecord,
    /// A value that the library works on does not meet its invariant: a
    /// barcode dictionary whose barcodes do not ascend or whose offset
    /// table does not match them.
    InvariantViolation,
}

} // verus!
