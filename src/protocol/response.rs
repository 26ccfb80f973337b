//! Responses sent back to clients.
use vstd::prelude::*;
use vstd::string::StringSliceAdditionalSpecFns;

verus! {

/// Response status, with its wire code.
#[derive(Debug, Clone, Copy, PartialEq, Eq, Structural)]
pub enum Status {
    Success,
    NotFound,
    Error,
}

impl Status {
    /// The byte that identifies this status on the wire.
    pub open spec fn spec_code(self) -> u8 {
        match self {
            Status::Success => 0,
            Status::NotFound => 1,
            Status::Error => 2,
        }
    }

    /// The byte that identifies this status on the wire.
    pub fn code(self) -> (r: u8)
        ensures
            r == self.spec_code(),
    {
        match self {
            Status::Success => 0,
            Status::NotFound => 1,
            Status::Error => 2,
        }
    }
}

/// A response to a command.
#[derive(Debug, Clone, PartialEq, Eq)]
pub struct Response {
    /// Status code.
    pub status: Status,
    /// Optional payload: the value for GET, the message for ERROR.
    pub payload: Option<Vec<u8>>,
}

/// The payload of a response as a byte string, if any.
pub open spec fn payload_view(p: Option<Vec<u8>>) -> Option<Seq<u8>> {
    match p {
        Some(v) => Some(v@),
        None => None,
    }
}

impl Response {
    /// An OK response carrying `payload`.
    pub fn ok(payload: Option<Vec<u8>>) -> (r: Self)
        ensures
            r.status == Status::Success,
            r.payload == payload,
    {
        Response { status: Status::Success, payload }
    }

    /// A NOT_FOUND response with no payload.
    pub fn not_found() -> (r: Self)
        ensures
            r.status == Status::NotFound,
            r.payload is None,
    {
        Response { status: Status::NotFound, payload: None }
    }

    /// An ERROR response whose payload is the UTF-8 bytes of `message`.
    pub fn error(message: &str) -> (r: Self)
        ensures
            r.status == Status::Error,
            r.payload matches Some(p) && p@ == message.spec_bytes(),
    {
        let bytes = message.as_bytes();
        let mut payload: Vec<u8> = Vec::new();
        crate::bytes::push_all(&mut payload, bytes);
        Response { status: Status::Error, payload: Some(payload) }
    }
}

} // verus!
