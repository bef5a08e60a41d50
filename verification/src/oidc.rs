//! Federated-identity decisions: the JWKS cache policy, key filtering, the
//! subject binding check, and the missing-assertion gate. Decoding and the
//! JWKS fetch are network work the caller performs between these decisions.

use vstd::prelude::*;
use crate::ascii::str_eq;
use crate::error::Error;

verus! {

/// The claims of a verified third-party assertion.
pub struct IdTokenClaims {
    pub sub: String,
    pub email: Option<String>,
    pub aud: String,
    pub iss: String,
    pub exp: u64,
    pub iat: u64,
}

/// The verifier's configuration: issuer, audience, and key-set address.
pub struct OidcConfig {
    pub issuer: String,
    pub audience: String,
    pub jwks_uri: String,
}

/// Whether a key set fetched at `fetched_at` is still fresh at `now`: within
/// one hour.
pub fn jwks_cache_fresh(fetched_at: Option<i64>, now: i64) -> (r: bool)
    ensures
        r == match fetched_at {
            Some(f) => now - f < 3600,
            None => false,
        },
{
    match fetched_at {
        Some(f) => (now as i128) - (f as i128) < 3600,
        None => false,
    }
}

/// Whether a fetched key is usable: an RSA key carrying both components.
pub fn accept_jwk(kty: &str, has_n: bool, has_e: bool) -> (r: bool)
    ensures
        r == (kty@ == "RSA"@ && has_n && has_e),
{
    str_eq(kty, "RSA") && has_n && has_e
}

/// The identity an assertion names: its email when present, else its
/// subject.
pub open spec fn asserted_identity(claims: IdTokenClaims) -> Seq<char> {
    match claims.email {
        Some(e) => e@,
        None => claims.sub@,
    }
}

/// Whether the assertion binds to the requested principal: its email (else
/// its subject) must equal the request's subject exactly.
pub fn assertion_binds(claims: &IdTokenClaims, sub: &str) -> (r: bool)
    ensures
        r == (asserted_identity(*claims) == sub@),
{
    match &claims.email {
        Some(e) => str_eq(e.as_str(), sub),
        None => str_eq(claims.sub.as_str(), sub),
    }
}

/// The missing-assertion gate: when an identity verifier is configured and
/// identity is required, a request without an assertion is unauthorized;
/// otherwise it passes.
pub fn oidc_gate(configured: bool, require: bool, token_present: bool) -> (r: Result<(), Error>)
    ensures
        r is Ok <==> !(configured && require && !token_present),
        r is Err ==> r matches Err(Error::Unauthorized(_)),
{
    if configured && require && !token_present {
        return Err(Error::Unauthorized("id_token required".to_owned()));
    }
    Ok(())
}

} // verus!
