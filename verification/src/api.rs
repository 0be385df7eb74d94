//! What the admission surface exchanges with the core: response bodies,
//! the shared application state, room summaries, and the decoding of the
//! base64 request envelope.

use vstd::prelude::*;

verus! {

/// Response body texts of the admission surface.
pub struct BodyUtil {}

impl BodyUtil {
    /// The operation succeeded.
    pub fn succeed() -> (r: &'static str)
        ensures
            r@ == "Succeed"@,
    {
        "Succeed"
    }

    /// The operation was refused.
    pub fn rejected() -> (r: &'static str)
        ensures
            r@ == "Rejected"@,
    {
        "Rejected"
    }

    /// The caller's token does not match.
    pub fn inviled_token() -> (r: &'static str)
        ensures
            r@ == "Token Inviled"@,
    {
        "Token Inviled"
    }

    /// The caller's key does not match.
    pub fn inviled_password() -> (r: &'static str)
        ensures
            r@ == "Password Inviled"@,
    {
        "Password Inviled"
    }

    /// No room with the given id exists.
    pub fn room_id_notfound() -> (r: &'static str)
        ensures
            r@ == "Room ID Not Found"@,
    {
        "Room ID Not Found"
    }

    /// Anything else.
    pub fn unknown_error() -> (r: &'static str)
        ensures
            r@ == "Unknown Error"@,
    {
        "Unknown Error"
    }
}

/// Collaborator-supplied configuration the admission layer hands the core.
pub struct Config {
    /// ICE server URLs handed to the transport.
    pub ice_servers: Vec<String>,
    /// Grace window in milliseconds for a publisher reconnect.
    pub publish_leave_timeout: u64,
    /// Whether tearing a republication down closes its subscribers.
    pub reforward_close_sub: bool,
}

/// State shared by every route handler.
pub struct AppState {
    pub config: Config,
}

/// Room summary returned by the room listing routes.
pub struct RoomInfoJson {
    pub id: i32,
    pub name: String,
    pub capacity: u32,
    pub description: String,
}

/// Why a request envelope was refused.
#[derive(Clone, Copy, PartialEq, Eq, Structural, Debug)]
pub enum EnvelopeError {
    /// No `json_base64` parameter was supplied.
    MissingJson,
    /// The parameter is not valid base64.
    BadEncoding,
}

impl EnvelopeError {
    /// The response body reporting this refusal.
    pub fn text(&self) -> (r: &'static str)
        ensures
            self is MissingJson ==> r@ == "Missing JSON"@,
            self is BadEncoding ==> r@ == "Invalid Encoding"@,
    {
        match self {
            EnvelopeError::MissingJson => "Missing JSON",
            EnvelopeError::BadEncoding => "Invalid Encoding",
        }
    }
}

/// The bytes standard base64 decodes a string to, when it is valid.
pub uninterp spec fn base64_decoded(s: Seq<char>) -> Option<Seq<u8>>;

#[verifier::external_type_specification]
#[verifier::external_body]
pub struct ExDecodeError(base64::DecodeError);

/// Relies on base64::Engine::decode with the standard alphabet: the result
/// is a function of the input string alone; it fails exactly on invalid
/// base64.
#[verifier::external_body]
fn base64_decode(s: &str) -> (r: Result<Vec<u8>, base64::DecodeError>)
    ensures
        match r {
            Ok(v) => base64_decoded(s@) == Some(v@),
            Err(_) => base64_decoded(s@) is None,
        },
{
    base64::Engine::decode(&base64::engine::general_purpose::STANDARD, s)
}

/// Extract and decode the `json_base64` request envelope: the decoded JSON
/// bytes, or which of the two refusals applies. The caller deserializes
/// the bytes.
pub fn decode_json_param(params: &crate::params::Params) -> (r: Result<Vec<u8>, EnvelopeError>)
    ensures
        ({
            match crate::params::spec_param(params.entries@, "json_base64"@) {
                None => r == Err::<Vec<u8>, EnvelopeError>(EnvelopeError::MissingJson),
                Some(v) => match base64_decoded(v) {
                    Some(bytes) => r matches Ok(out) && out@ == bytes,
                    None => r == Err::<Vec<u8>, EnvelopeError>(EnvelopeError::BadEncoding),
                },
            }
        }),
{
    let v = match params.get("json_base64") {
        None => {
            return Err(EnvelopeError::MissingJson);
        },
        Some(v) => v,
    };
    match base64_decode(v.as_str()) {
        Ok(bytes) => Ok(bytes),
        Err(_) => Err(EnvelopeError::BadEncoding),
    }
}

} // verus!
