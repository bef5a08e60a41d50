//! Uniform failure kinds with dual representations: a rich internal detail
//! for logs, and a sanitized categorical message for clients.

use vstd::prelude::*;

verus! {

/// Every failure the token lifecycle can produce. Detail strings are
/// internal; clients only ever see the fixed label from `client_message`.
#[derive(Debug)]
pub enum Error {
    TokenExpired,
    InvalidSignature,
    InvalidToken(String),
    ReplayDetected(String),
    PolicyViolation(String),
    Unauthorized(String),
    RateLimited(String),
    Validation(String),
    ServiceUnavailable(String),
    Database,
    Serialization,
    Base64,
    Signing(String),
}

impl Error {
    /// The HTTP status this failure resolves to.
    pub fn status(&self) -> (s: u16)
        ensures
            s == self.status_spec(),
    {
        match self {
            Error::TokenExpired => 401,
            Error::InvalidSignature => 401,
            Error::InvalidToken(_) => 401,
            Error::Unauthorized(_) => 401,
            Error::ReplayDetected(_) => 409,
            Error::PolicyViolation(_) => 403,
            Error::RateLimited(_) => 429,
            Error::Validation(_) => 400,
            Error::Base64 => 400,
            Error::ServiceUnavailable(_) => 503,
            Error::Database => 500,
            Error::Serialization => 500,
            Error::Signing(_) => 500,
        }
    }

    pub open spec fn status_spec(&self) -> u16 {
        match self {
            Error::TokenExpired => 401u16,
            Error::InvalidSignature => 401u16,
            Error::InvalidToken(_) => 401u16,
            Error::Unauthorized(_) => 401u16,
            Error::ReplayDetected(_) => 409u16,
            Error::PolicyViolation(_) => 403u16,
            Error::RateLimited(_) => 429u16,
            Error::Validation(_) => 400u16,
            Error::Base64 => 400u16,
            Error::ServiceUnavailable(_) => 503u16,
            Error::Database => 500u16,
            Error::Serialization => 500u16,
            Error::Signing(_) => 500u16,
        }
    }

    /// The fixed categorical label shown to clients for this kind.
    pub open spec fn client_message_spec(&self) -> Seq<char> {
        match self {
            Error::TokenExpired => "token expired"@,
            Error::InvalidSignature => "invalid signature"@,
            Error::InvalidToken(_) => "invalid token"@,
            Error::ReplayDetected(_) => "token already used"@,
            Error::PolicyViolation(_) => "policy violation"@,
            Error::Unauthorized(_) => "unauthorized"@,
            Error::RateLimited(_) => "rate limit exceeded"@,
            Error::Validation(_) => "invalid request"@,
            Error::ServiceUnavailable(_) => "service temporarily unavailable"@,
            Error::Database => "internal error"@,
            Error::Serialization => "internal error"@,
            Error::Base64 => "invalid encoding"@,
            Error::Signing(_) => "internal error"@,
        }
    }

    /// What a client is shown. Never embeds the inner detail: for any two
    /// errors of the same kind the message is the same fixed string.
    pub fn client_message(&self) -> (m: String)
        ensures
            m@ == self.client_message_spec(),
    {
        match self {
            Error::TokenExpired => "token expired".to_owned(),
            Error::InvalidSignature => "invalid signature".to_owned(),
            Error::InvalidToken(_) => "invalid token".to_owned(),
            Error::ReplayDetected(_) => "token already used".to_owned(),
            Error::PolicyViolation(_) => "policy violation".to_owned(),
            Error::Unauthorized(_) => "unauthorized".to_owned(),
            Error::RateLimited(_) => "rate limit exceeded".to_owned(),
            Error::Validation(_) => "invalid request".to_owned(),
            Error::ServiceUnavailable(_) => "service temporarily unavailable".to_owned(),
            Error::Database => "internal error".to_owned(),
            Error::Serialization => "internal error".to_owned(),
            Error::Base64 => "invalid encoding".to_owned(),
            Error::Signing(_) => "internal error".to_owned(),
        }
    }

    /// The full internal detail, for logs only.
    pub fn detail(&self) -> String {
        match self {
            Error::TokenExpired => "token expired".to_owned(),
            Error::InvalidSignature => "invalid signature".to_owned(),
            Error::InvalidToken(d) => "invalid token format: ".to_owned().concat(d.as_str()),
            Error::ReplayDetected(j) => "token already used (jti: ".to_owned().concat(
                j.as_str(),
            ).concat(")"),
            Error::PolicyViolation(d) => "policy violation: ".to_owned().concat(d.as_str()),
            Error::Unauthorized(d) => "unauthorized: ".to_owned().concat(d.as_str()),
            Error::RateLimited(d) => "rate limited: ".to_owned().concat(d.as_str()),
            Error::Validation(d) => "validation error: ".to_owned().concat(d.as_str()),
            Error::ServiceUnavailable(d) => "service unavailable: ".to_owned().concat(
                d.as_str(),
            ),
            Error::Database => "database error".to_owned(),
            Error::Serialization => "serialization error".to_owned(),
            Error::Base64 => "base64 decode error".to_owned(),
            Error::Signing(d) => "signing error: ".to_owned().concat(d.as_str()),
        }
    }
}

/// Redaction: every kind that resolves to a 5xx status answers clients with a
/// fixed string, whatever the inner detail was. No identifier, path, or key
/// material can leak through the client message of a server-side failure.
pub proof fn law_redaction(e1: Error, e2: Error)
    requires
        e1.status_spec() >= 500,
        e2.status_spec() >= 500,
    ensures
        e1.client_message_spec() == "internal error"@ || e1.client_message_spec()
            == "service temporarily unavailable"@,
        e1.status_spec() == 500 ==> e1.client_message_spec() == "internal error"@,
        e1.status_spec() == e2.status_spec() ==> e1.client_message_spec()
            == e2.client_message_spec(),
{
}

} // verus!
