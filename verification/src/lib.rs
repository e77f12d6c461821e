//! Decoder core for the flight-data files written by a family of piston-engine
//! monitors: an ASCII preamble of tagged, XOR-checksummed header records,
//! followed by binary flight streams of bit-packed, delta-encoded,
//! checksummed sensor samples.

use vstd::prelude::*;

pub mod bits;
pub mod data;
pub mod headers;

verus! {

/// The ways a header line, flight header or binary frame can be rejected.
#[derive(Clone, Copy, Debug, PartialEq, Eq, Structural)]
pub enum ErrorKind {
    /// Malformed `$...*HH` framing, or a malformed tail-number payload.
    BadEnvelope,
    /// ASCII XOR checksum mismatch, or binary additive checksum mismatch.
    BadChecksum,
    /// Header record letter outside the set {U, A, F, T, C, D, L}.
    UnknownRecord,
    /// A numeric payload field fails its decimal parse or exceeds its range.
    BadNumber,
    /// Mismatched decode bytes, a scale-flag or signed-RPM violation.
    BadFrame,
    /// A repeat count above one, which the format leaves undefined.
    Unsupported,
    /// The input ended before the frame or header was complete.
    ShortRead,
}

} // verus!
