//! The two ways in which reading or writing a message fails.

use vstd::prelude::*;

verus! {

/// Why a read or a write on a message buffer failed.
#[derive(Clone, Copy, Debug, PartialEq, Eq, Structural)]
pub enum DnsError {
    /// An access reached beyond the last byte of the buffer.
    OutOfBounds,
    /// A label is longer than the wire format allows, or a chain of
    /// compression pointers is longer than any well-formed message needs.
    FormatError,
}

} // verus!
