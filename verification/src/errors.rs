//! Error taxonomy of the client core. Every component surfaces its failures
//! as one of these values; nothing is recovered silently.

use vstd::prelude::*;

verus! {

/// Malformed bencode or metainfo: a structural violation of the encoding
/// (missing terminator, non-numeric length, truncated input) or a missing or
/// mistyped metainfo field.
#[derive(Clone, Copy, Debug, PartialEq, Eq, Structural)]
pub enum FormatError {
    Malformed,
}

/// A violation of the peer-wire protocol. Fatal for the connection it
/// occurred on.
#[derive(Clone, Copy, Debug, PartialEq, Eq, Structural)]
pub enum ProtocolError {
    /// The remote handshake echoed an info-hash other than the one sent.
    InfoHashMismatch,
    /// A framed message carried a message id outside the protocol's mapping.
    UnknownMessageId,
    /// A message arrived out of the sequence the transfer requires.
    UnexpectedMessage,
    /// A piece message carried a block that does not fit the piece buffer.
    BlockOutOfRange,
}

/// Integrity failure of an assembled piece.
#[derive(Clone, Copy, Debug, PartialEq, Eq, Structural)]
pub enum VerificationError {
    /// The assembled piece's digest differs from the metainfo's digest.
    HashMismatch,
}

} // verus!
