//! The ways in which reading or writing a message can fail.

use vstd::prelude::*;

verus! {

/// Why an operation on a packet buffer, or on a message built on top of one,
/// did not succeed.
#[derive(Clone, Copy, Debug, PartialEq, Eq, Structural)]
pub enum BufferError {
    /// A read or write went past the bytes the buffer holds or can hold, or
    /// the cursor could not be advanced any further.
    EndOfBuffer,
    /// A name followed more compression pointers than a well-formed message
    /// ever needs; the usual cause is a pointer loop.
    TooManyJumps,
    /// A label is longer than the 63 bytes a length byte can announce.
    InvalidLabelLength,
    /// A write was attempted on a buffer that only reads.
    ReadOnly,
    /// A section holds more entries than its 16-bit count can announce.
    TooManyEntries,
}

} // verus!
