//! The errors that a request can end in, and the reply that each one gets.

use vstd::prelude::*;

verus! {

/// Why a request failed.
#[derive(Debug)]
pub enum ApiError {
    NotFound(String),
    ValidationError(String),
    ExternalApiError(String),
    /// The request to the exchange could not be made or completed.
    RequestError,
    /// A payload could not be encoded or decoded.
    SerializationError,
    InternalError(String),
}

/// The HTTP status and the message that a failed request is answered with.
#[derive(Debug)]
pub struct ErrorReply {
    pub status: u16,
    pub message: String,
}

impl ApiError {
    /// The reply for this error: a missing item is 404, an invalid request
    /// 400, a failure of the exchange 502 and anything else 500. The details
    /// of request and serialization failures are not passed on.
    pub fn reply(&self) -> (r: ErrorReply)
        ensures
            match self {
                ApiError::NotFound(m) => r.status == 404 && r.message@ == m@,
                ApiError::ValidationError(m) => r.status == 400 && r.message@ == m@,
                ApiError::ExternalApiError(m) => r.status == 502 && r.message@ == m@,
                ApiError::RequestError => r.status == 502 && r.message@ == "External request failed"@,
                ApiError::SerializationError => r.status == 500 && r.message@ == "Serialization error"@,
                ApiError::InternalError(m) => r.status == 500 && r.message@ == m@,
            },
    {
        match self {
            ApiError::NotFound(m) => ErrorReply { status: 404, message: m.clone() },
            ApiError::ValidationError(m) => ErrorReply { status: 400, message: m.clone() },
            ApiError::ExternalApiError(m) => ErrorReply { status: 502, message: m.clone() },
            ApiError::RequestError => ErrorReply { status: 502, message: "External request failed".to_owned() },
            ApiError::SerializationError => ErrorReply { status: 500, message: "Serialization error".to_owned() },
            ApiError::InternalError(m) => ErrorReply { status: 500, message: m.clone() },
        }
    }
}

} // verus!
