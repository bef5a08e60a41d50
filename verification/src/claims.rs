//! The signed payload: token id, subject, action, and the issue/expiry
//! instants, all in plain values (Unix seconds for time).

use vstd::prelude::*;
use vstd::utf8::*;
use crate::clock::now_unix;
use crate::timefmt::MAX_UNIX_TS;

verus! {

/// A capability claim. `iat` and `exp` are Unix seconds, UTC.
#[derive(Debug)]
pub struct Claims {
    pub jti: String,
    pub sub: String,
    pub action: String,
    pub iat: i64,
    pub exp: i64,
}

/// The mathematical model of a claim.
#[verifier::ext_equal]
pub ghost struct ClaimsV {
    pub jti: Seq<char>,
    pub sub: Seq<char>,
    pub action: Seq<char>,
    pub iat: int,
    pub exp: int,
}

impl View for Claims {
    type V = ClaimsV;

    open spec fn view(&self) -> ClaimsV {
        ClaimsV {
            jti: self.jti@,
            sub: self.sub@,
            action: self.action@,
            iat: self.iat as int,
            exp: self.exp as int,
        }
    }
}

/// A token id character: lowercase hex or hyphen, the alphabet of the
/// canonical hyphenated UUID form.
pub open spec fn is_jti_char(c: char) -> bool {
    let u = c as u32;
    (48 <= u && u <= 57) || (97 <= u && u <= 102) || u == 45
}

/// An action character: ASCII alphanumeric, underscore, colon, or hyphen.
pub open spec fn is_action_char(c: char) -> bool {
    let u = c as u32;
    (65 <= u && u <= 90) || (97 <= u && u <= 122) || (48 <= u && u <= 57) || u == 95 || u == 58
        || u == 45
}

/// Well-formedness of a claim: the bounds the mint pipeline guarantees and
/// the canonical payload encoding relies on. The subject is measured in
/// characters, as the data model states it.
pub open spec fn claims_wf(c: ClaimsV) -> bool {
    &&& 1 <= c.jti.len() <= 64
    &&& (forall|i: int| 0 <= i < c.jti.len() ==> is_jti_char(#[trigger] c.jti[i]))
    &&& 1 <= c.sub.len() <= 256
    &&& 1 <= c.action.len() <= 64
    &&& (forall|i: int| 0 <= i < c.action.len() ==> is_action_char(#[trigger] c.action[i]))
    &&& 0 <= c.iat <= MAX_UNIX_TS
    &&& 0 <= c.exp <= MAX_UNIX_TS
}

/// Relies on uuid::Uuid::new_v4 and its Display form: a fresh random token id
/// in canonical hyphenated form, 36 characters of lowercase hex and hyphens.
/// Nothing more can be promised of a random value.
#[verifier::external_body]
pub fn new_jti() -> (r: String)
    ensures
        r@.len() == 36,
        forall|i: int| 0 <= i < r@.len() ==> is_jti_char(#[trigger] r@[i]),
{
    uuid::Uuid::new_v4().to_string()
}

impl Claims {
    /// Build a claim at an explicit instant. The issue time is clamped into
    /// the representable range so that the expiry arithmetic cannot overflow.
    pub fn new_at(sub: String, action: String, ttl_seconds: i64, jti: String, now: i64) -> (r:
        Claims)
        requires
            0 <= ttl_seconds <= 300,
        ensures
            r@.jti == jti@,
            r@.sub == sub@,
            r@.action == action@,
            r@.iat == (if now < 0 {
                0int
            } else if now > MAX_UNIX_TS - 300 {
                MAX_UNIX_TS - 300
            } else {
                now as int
            }),
            0 <= r@.iat <= MAX_UNIX_TS - 300,
            r@.exp == r@.iat + ttl_seconds,
    {
        let iat: i64 = if now < 0 {
            0
        } else if now > MAX_UNIX_TS - 300 {
            MAX_UNIX_TS - 300
        } else {
            now
        };
        Claims { jti, sub, action, iat, exp: iat + ttl_seconds }
    }

    /// Build a claim for `sub` and `action` expiring `ttl_seconds` from now,
    /// with a fresh random token id.
    pub fn new(sub: String, action: String, ttl_seconds: i64) -> (r: Claims)
        requires
            0 <= ttl_seconds <= 300,
        ensures
            r@.sub == sub@,
            r@.action == action@,
            r@.jti.len() == 36,
            forall|i: int| 0 <= i < r@.jti.len() ==> is_jti_char(#[trigger] r@.jti[i]),
            0 <= r@.iat <= MAX_UNIX_TS - 300,
            r@.exp == r@.iat + ttl_seconds,
    {
        let jti = new_jti();
        let now = now_unix();
        Claims::new_at(sub, action, ttl_seconds, jti, now)
    }

    /// Whether the claim is expired at the instant `now`: the token is live
    /// only while `exp` lies strictly in the future.
    pub fn is_expired_at(&self, now: i64) -> (r: bool)
        ensures
            r == (now >= self@.exp),
    {
        now >= self.exp
    }

    /// Whether the claim is expired now, by the process clock.
    pub fn is_expired(&self) -> bool {
        let now = now_unix();
        self.is_expired_at(now)
    }
}

} // verus!
