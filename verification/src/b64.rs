//! URL-safe base64 without padding, through the `base64` crate.
//!
//! The encoded form of a byte sequence is named `b64url_of`; the trusted
//! wrappers below relate both directions of the codec to that one name.

use base64::Engine as _;
use vstd::prelude::*;

verus! {

/// The URL-safe no-pad base64 encoding of `b`, as named by the wrappers below.
pub uninterp spec fn b64url_of(b: Seq<u8>) -> Seq<char>;

/// A character of the URL-safe base64 alphabet (no padding character).
pub open spec fn is_b64url_char(c: char) -> bool {
    let u = c as u32;
    (65 <= u && u <= 90) || (97 <= u && u <= 122) || (48 <= u && u <= 57) || u == 45 || u == 95
}

/// Relies on base64's URL_SAFE_NO_PAD engine: the encoding is 4 characters per
/// 3 bytes (rounded, unpadded) drawn from the URL-safe alphabet.
#[verifier::external_body]
pub fn b64url_encode(b: &[u8]) -> (r: String)
    ensures
        r@ == b64url_of(b@),
        r@.len() == (b@.len() * 4 + 2) / 3,
        forall|i: int| 0 <= i < r@.len() ==> is_b64url_char(#[trigger] r@[i]),
{
    base64::engine::general_purpose::URL_SAFE_NO_PAD.encode(b)
}

/// Relies on base64's URL_SAFE_NO_PAD engine for decoding: it accepts exactly
/// the canonical unpadded encodings (padding is refused, and non-zero trailing
/// bits are refused), so a decode succeeds on `b64url_of(b)` and returns `b`,
/// and anything it accepts is such an encoding.
#[verifier::external_body]
pub fn b64url_decode(s: &str) -> (r: Option<Vec<u8>>)
    ensures
        r is Some ==> s@ == b64url_of(r.unwrap()@),
        forall|b: Seq<u8>| s@ == b64url_of(b) ==> r is Some && r.unwrap()@ == b,
        r is Some ==> s@.len() == (r.unwrap()@.len() * 4 + 2) / 3,
{
    base64::engine::general_purpose::URL_SAFE_NO_PAD.decode(s).ok()
}

} // verus!
