//! Error types returned by the codec and the root-authority state machine.

use vstd::prelude::*;

verus! {

/// Why a wire message could not be decoded.
///
/// Decoding is strict: every failure on malformed, attacker-controlled input
/// is a typed, returned error, never a panic.
#[derive(Clone, Copy, Debug, PartialEq, Eq, Structural)]
pub enum DecodeError {
    /// A field header carried a tag or wire type other than the one the
    /// message layout calls for at that position.  `wire_type` holds the raw
    /// three-bit wire-type code that was read.
    UnexpectedFieldHeader { tag: u64, wire_type: u64 },
    /// A portion of the input is structurally invalid: a truncated or
    /// non-minimal length prefix, a fixed-size value of the wrong size,
    /// non-ASCII text, or an element of the wrong kind inside a sequence.
    MalformedElement,
    /// Bytes remain after the outermost message has been fully parsed.
    TrailingData,
    /// A declared length runs past the end of the available input.
    LengthExceeded,
    /// A decoded sequence holds more elements than its bounded capacity.
    Capacity,
}

/// Why a message could not be encoded.
#[derive(Clone, Copy, Debug, PartialEq, Eq, Structural)]
pub enum EncodeError {
    /// The caller-supplied buffer is smaller than the encoded message.
    BufferTooSmall,
}

/// A bounded collection was asked to hold more elements than its capacity.
#[derive(Clone, Copy, Debug, PartialEq, Eq, Structural)]
pub struct CapacityError;

/// Why a request could not be handled by the core.
#[derive(Clone, Copy, Debug, PartialEq, Eq, Structural)]
pub enum Error {
    /// The device already holds a committed root configuration.
    AlreadyProvisioned,
    /// The requested threshold lies outside `[1, number_of_keys]`.
    InvalidThreshold,
    /// More keys were supplied than the bounded key set can hold.
    CapacityExceeded,
    /// A cryptographic operation failed.
    Crypto,
}

} // verus!
