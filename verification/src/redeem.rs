//! The redeem pipeline's verified core: verify the token, then the single
//! critical-section replay check, then the audit append. The caller owns
//! latency measurement and the response headers.

use vstd::prelude::*;
use crate::ascii::ascii_bytes;
use crate::audit::{audit_has_jti, AuditLog};
use crate::b64::b64url_of;
use crate::claims::{claims_wf, ClaimsV};
use crate::error::Error;
use crate::jti::{contains_jti, live, JtiStore};
use crate::payload::json_of;
use crate::signing::ed25519_accepts;
use crate::timefmt::MAX_UNIX_TS;
use crate::signing::ed25519_vk;
use crate::token::{token_of, token_wf, verify_token_at};

verus! {

/// A redeem request: the token to consume.
#[derive(Debug)]
pub struct ProxyRequest {
    pub token: String,
}

/// A successful redemption: the claim's principal, action, and token id.
#[derive(Debug)]
pub struct ProxyResponse {
    pub sub: String,
    pub action: String,
    pub jti: String,
}

/// Redeem a token at the instant `now`: verify it, consume its id in the
/// replay store's critical section, and append the audit record. The
/// effects are staged: a verification failure touches neither store; a
/// replay or capacity refusal leaves only the eviction pass behind; an
/// audit uniqueness violation leaves the id consumed but unaudited; the
/// audit record exists exactly when the whole pipeline succeeded. A token
/// signed over a well-formed claim under the matching key is owed success
/// whenever it is unexpired, its id is fresh, and the stores have room.
#[verifier::rlimit(100)]
pub fn redeem_at(
    token: &str,
    vk: &[u8],
    store: &mut JtiStore,
    audit: &mut AuditLog,
    now: i64,
) -> (r: Result<ProxyResponse, Error>)
    requires
        vk@.len() == 32,
        old(store).wf(),
        old(audit).wf(),
    ensures
        final(store).wf(),
        final(audit).wf(),
        final(store).capacity() == old(store).capacity(),
        r is Err ==> final(audit).view() == old(audit).view(),
        r is Err ==> ((r matches Err(Error::InvalidToken(_))) || (r matches Err(
            Error::InvalidSignature,
        )) || (r matches Err(Error::Base64)) || (r matches Err(Error::Serialization)) || (
        r matches Err(Error::TokenExpired)) || (r matches Err(Error::ReplayDetected(_))) || (
        r matches Err(Error::ServiceUnavailable(_))) || (r matches Err(Error::Database))),
        ((r matches Err(Error::InvalidToken(_))) || (r matches Err(Error::InvalidSignature)) || (
        r matches Err(Error::Base64)) || (r matches Err(Error::Serialization)) || (r matches Err(
            Error::TokenExpired,
        ))) ==> final(store).view() == old(store).view(),
        ((r matches Err(Error::ReplayDetected(_))) || (r matches Err(
            Error::ServiceUnavailable(_),
        ))) ==> final(store).view() == live(old(store).view(), now),
        r matches Err(Error::Database) ==> exists|j: Seq<char>, e: i64|
            final(store).view() == #[trigger] live(old(store).view(), now).push((j, e)),
        forall|cm: ClaimsV, sk: Seq<u8>|
            claims_wf(cm) && sk.len() == 32 && token_wf(cm, sk) && token@ == token_of(cm, sk)
                && vk@ == ed25519_vk(sk) ==> ({
                let evicted = live(old(store).view(), now);
                if now >= cm.exp {
                    r matches Err(Error::TokenExpired)
                } else if evicted.len() >= old(store).capacity() {
                    r matches Err(Error::ServiceUnavailable(_))
                } else if contains_jti(evicted, cm.jti) {
                    r matches Err(Error::ReplayDetected(j)) && j@ == cm.jti
                } else if audit_has_jti(old(audit).view(), cm.jti) {
                    r matches Err(Error::Database)
                } else {
                    &&& r is Ok
                    &&& r.unwrap().sub@ == cm.sub
                    &&& r.unwrap().action@ == cm.action
                    &&& r.unwrap().jti@ == cm.jti
                    &&& final(store).view() == evicted.push((cm.jti, cm.exp as i64))
                    &&& final(audit).view().len() == old(audit).view().len() + 1
                    &&& final(audit).view().last().0 == cm.jti
                }
            }),
        r is Ok ==> ({
            let resp = r.unwrap();
            exists|cm: ClaimsV|
                {
                    &&& resp.sub@ == cm.sub
                    &&& resp.action@ == cm.action
                    &&& resp.jti@ == cm.jti
                    &&& 0 <= cm.iat <= MAX_UNIX_TS
                    &&& 0 <= cm.exp <= MAX_UNIX_TS
                    &&& now < cm.exp
                    &&& (exists|sig: Seq<u8>|
                        sig.len() == 64 && #[trigger] ed25519_accepts(
                            vk@,
                            ascii_bytes(b64url_of(json_of(cm))),
                            sig,
                        ))
                    &&& !contains_jti(live(old(store).view(), now), cm.jti)
                    &&& final(store).view() == #[trigger] live(old(store).view(), now).push(
                        (cm.jti, cm.exp as i64),
                    )
                    &&& final(audit).view().len() == old(audit).view().len() + 1
                    &&& final(audit).view().last().0 == cm.jti
                }
        }),
{
    let claims = match verify_token_at(token, vk, now) {
        Ok(c) => c,
        Err(e) => {
            return Err(e);
        },
    };
    match store.check_and_insert_at(claims.jti.as_str(), claims.exp, now) {
        Ok(()) => {},
        Err(e) => {
            return Err(e);
        },
    }
    match audit.log(claims.jti.as_str(), claims.sub.as_str(), claims.action.as_str(), now) {
        Ok(()) => {},
        Err(e) => {
            return Err(e);
        },
    }
    proof {
        let cm = claims@;
        assert(final(audit).view().last().0 == cm.jti);
        assert(final(store).view() == live(old(store).view(), now).push((cm.jti, cm.exp as i64)));
    }
    Ok(ProxyResponse { sub: claims.sub, action: claims.action, jti: claims.jti })
}

} // verus!
