use vstd::prelude::*;

verus! {

/// Every way an operation of this library can fail. All of them end the
/// current operation: nothing is retried.
#[derive(Clone, Copy, Debug, PartialEq, Eq, Structural)]
pub enum Error {
    /// The codec met a structural violation in its input.
    MalformedInput,
    /// A required key of the descriptor is absent.
    MissingField,
    /// The descriptor's keys are present but inconsistent with each other.
    InvalidMetadata,
    /// The tracker's response lacks an expected field or has it in another shape.
    TrackerProtocolError,
    /// The peer answered the handshake for another content identifier.
    HandshakeFailed,
    /// A read or write on the peer connection failed or came up short.
    ConnectionLost,
    /// A completed piece does not hash to the value the descriptor gives.
    PieceHashMismatch,
}

/// What an error says to the user.
pub open spec fn error_text(e: Error) -> Seq<char> {
    match e {
        Error::MalformedInput => "malformed input"@,
        Error::MissingField => "missing field in descriptor"@,
        Error::InvalidMetadata => "invalid metadata"@,
        Error::TrackerProtocolError => "tracker protocol error"@,
        Error::HandshakeFailed => "handshake failed"@,
        Error::ConnectionLost => "connection lost"@,
        Error::PieceHashMismatch => "piece hash mismatch"@,
    }
}

impl Error {
    /// A short description for the user.
    pub fn describe(&self) -> (text: String)
        ensures
            text@ == error_text(*self),
    {
        match self {
            Error::MalformedInput => "malformed input".to_owned(),
            Error::MissingField => "missing field in descriptor".to_owned(),
            Error::InvalidMetadata => "invalid metadata".to_owned(),
            Error::TrackerProtocolError => "tracker protocol error".to_owned(),
            Error::HandshakeFailed => "handshake failed".to_owned(),
            Error::ConnectionLost => "connection lost".to_owned(),
            Error::PieceHashMismatch => "piece hash mismatch".to_owned(),
        }
    }
}

} // verus!
