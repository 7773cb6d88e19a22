//! Error taxonomy of the wire protocol. Every structural or parse error is
//! fatal for the session: the format is positional, so there is no reliable
//! point at which a decoder could resynchronize.

use vstd::prelude::*;

verus! {

/// Why a protocol step failed.
#[derive(Clone, Copy, Debug, PartialEq, Eq, Structural)]
pub enum ProtocolError {
    /// A token that should be an unsigned decimal integer is not one, or its
    /// value does not fit the field it is read into.
    MalformedInt,
    /// A line holds fewer tokens than the message requires.
    MissingField,
    /// A fixed-size section holds the wrong number of tokens.
    TokenCountMismatch,
    /// The run-length-encoded ownership section does not cover the grid
    /// exactly: a run of zero length, a run past the end of the grid, or the
    /// token stream ending in the middle of a pair.
    TruncatedRunLengthEncoding,
    /// End of stream where a handshake line was still expected. Between
    /// turns, end of stream is a normal shutdown instead.
    TransportClosed,
}

} // verus!
