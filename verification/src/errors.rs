//! Errors the forwarding plane surfaces as typed values.

use vstd::prelude::*;

verus! {

/// Why a forwarding operation was refused.
#[derive(Clone, Copy, PartialEq, Eq, Structural, Debug)]
pub enum RelayError {
    /// Stream, session or layer does not exist.
    NotFound,
    /// A second publisher or a duplicate stream create.
    AlreadyExists,
    /// The underlying bus is closed or has no receivers.
    SendFailed,
    /// Surfaced from the transport; terminal for the affected peer.
    Transport,
    /// The offer or the media description violates a constraint.
    Malformed,
}

impl RelayError {
    /// A human-readable description of the error.
    pub fn text(&self) -> (r: String)
        ensures
            self is NotFound ==> r@ == "not found"@,
            self is AlreadyExists ==> r@ == "already exists"@,
            self is SendFailed ==> r@ == "send failed"@,
            self is Transport ==> r@ == "transport error"@,
            self is Malformed ==> r@ == "malformed input"@,
    {
        match self {
            RelayError::NotFound => "not found".to_owned(),
            RelayError::AlreadyExists => "already exists".to_owned(),
            RelayError::SendFailed => "send failed".to_owned(),
            RelayError::Transport => "transport error".to_owned(),
            RelayError::Malformed => "malformed input".to_owned(),
        }
    }
}

} // verus!
