//! The failure taxonomy shared by every fallible operation of the crate.

use vstd::prelude::*;

verus! {

/// Every way a codec operation can fail. All variants are ordinary,
/// recoverable outcomes: nothing in this crate panics on bad input.
#[derive(Clone, Copy, Debug, PartialEq, Eq, Structural)]
pub enum PngError {
    /// A type code held a non-letter byte, had the wrong length, or (on the
    /// binary decode path only) violated the reserved-bit rule.
    MalformedTypeCode,
    /// A buffer was shorter than its declared contents require.
    Truncated,
    /// The recomputed CRC-32 disagreed with the embedded checksum.
    ChecksumMismatch,
    /// The first eight bytes of a container buffer were not the magic
    /// signature.
    BadSignature,
    /// A removal was requested for a type code absent from the container.
    NotFound,
    /// A payload requested as text was not valid UTF-8.
    InvalidEncoding,
    /// A payload was too long for the 32-bit length field.
    PayloadTooLarge,
    /// An I/O collaborator outside this crate failed; propagated unchanged.
    FileAccess,
}

} // verus!
