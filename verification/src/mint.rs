//! The mint pipeline's verified core: request validation, the TTL clamp, and
//! issuing (policy check, claim construction, signing). The identity check
//! between validation and issuing is driven by the caller, which owns the
//! network.

use vstd::prelude::*;
use vstd::utf8::*;
use vstd::string::StringSliceAdditionalSpecFns;
use crate::ascii::{lemma_code_ascii, lemma_encode_ascii, lemma_low_bytes_ascii,
    lemma_low_bytes_valid, string_from_utf8};
use crate::claims::{Claims, ClaimsV, claims_wf, is_action_char, is_jti_char};
use crate::error::Error;
use crate::policy::{check_spec, PolicyEngine};
use crate::signing::Keypair;
use crate::timefmt::{format_rfc3339, lemma_rfc3339_low, rfc3339_bytes, MAX_UNIX_TS};
use crate::token::{sign_token, token_of, token_wf};

verus! {

/// A mint request: the principal, the action, the requested lifetime, and an
/// optional federated-identity assertion.
#[derive(Debug)]
pub struct MintRequest {
    pub sub: String,
    pub action: String,
    pub ttl_seconds: i64,
    pub id_token: Option<String>,
}

/// A minted token with its id and expiry rendering.
#[derive(Debug)]
pub struct MintResponse {
    pub token: String,
    pub jti: String,
    pub exp: String,
}

/// The default token lifetime when a request does not name one.
pub fn default_ttl() -> (r: i64)
    ensures
        r == 60,
{
    60
}

/// A control character: the C0 range, delete, and the C1 range.
pub open spec fn is_ctl_char(c: char) -> bool {
    let u = c as u32;
    u < 0x20 || (0x7f <= u && u <= 0x9f)
}

/// A valid subject: 1 through 256 characters, no control characters.
pub open spec fn valid_sub(s: Seq<char>) -> bool {
    &&& 1 <= s.len() <= 256
    &&& forall|i: int| 0 <= i < s.len() ==> !is_ctl_char(#[trigger] s[i])
}

/// A valid action: 1 through 64 characters of the action alphabet.
pub open spec fn valid_action(s: Seq<char>) -> bool {
    &&& 1 <= s.len() <= 64
    &&& forall|i: int| 0 <= i < s.len() ==> is_action_char(#[trigger] s[i])
}

/// The width-one case: the encoded byte is the character's code.
proof fn lemma_ctl_w1(v: u32)
    by (bit_vector)
    requires
        v <= 0x7F,
    ensures
        (((v & 0x7F) as u8) as u32) == v,
{
}

/// The width-two case: the C1 controls are exactly the `0xC2`-led pairs
/// whose continuation byte stays at or below `0x9F`.
proof fn lemma_ctl_w2(v: u32)
    by (bit_vector)
    requires
        0x80 <= v <= 0x7FF,
    ensures
        ((0xC0u8 | (((v >> 6) & 0x1F) as u8)) == 0xC2 && ((0x80u8 | ((v & 0x3F) as u8)) <= 0x9F))
            <==> v <= 0x9F,
{
}

/// Count the string's characters, refusing any control character.
#[verifier::rlimit(100)]
fn sub_measure(s: &str) -> (r: Option<usize>)
    ensures
        r is Some ==> r.unwrap() == s@.len() && (forall|i: int|
            0 <= i < s@.len() ==> !is_ctl_char(#[trigger] s@[i])),
        r is None ==> exists|i: int| 0 <= i < s@.len() && is_ctl_char(#[trigger] s@[i]),
{
    let bytes = s.as_bytes();
    let n = bytes.len();
    let ghost tc = s@;
    proof {
        encode_utf8_valid_utf8(tc);
        assert(tc.skip(0) =~= tc);
        assert(bytes@.skip(0) =~= bytes@);
    }
    let mut i: usize = 0;
    let mut k: usize = 0;
    loop
        invariant
            i <= n,
            k <= i,
            n == bytes@.len(),
            tc == s@,
            bytes@ == encode_utf8(tc),
            k <= tc.len(),
            encode_utf8(tc.skip(k as int)) == bytes@.skip(i as int),
            forall|t: int| 0 <= t < k ==> !is_ctl_char(#[trigger] tc[t]),
        ensures
            k == tc.len(),
            forall|t: int| 0 <= t < k ==> !is_ctl_char(#[trigger] tc[t]),
        decreases n - i,
    {
        if i == n {
            proof {
                if (k as int) < tc.len() {
                    let rest = tc.skip(k as int);
                    assert(rest.len() > 0);
                    char_is_scalar(rest[0]);
                    assert(encode_utf8(rest) == encode_scalar(rest[0] as u32) + encode_utf8(
                        rest.drop_first(),
                    ));
                    assert(encode_utf8(rest).len() > 0);
                    assert(false);
                }
            }
            break ;
        }
        let ghost c = tc[k as int];
        let ghost rest = tc.skip(k as int);
        proof {
            if k as int == tc.len() {
                assert(rest =~= Seq::<char>::empty());
                assert(encode_utf8(Seq::<char>::empty()) =~= Seq::<u8>::empty());
                assert(bytes@.skip(i as int).len() == 0);
                assert(false);
            }
            assert(rest[0] == c);
            char_is_scalar(c);
            assert(encode_utf8(rest) == encode_scalar(c as u32) + encode_utf8(
                rest.drop_first(),
            ));
            assert(rest.drop_first() =~= tc.skip(k as int + 1));
            crate::audit::lemma_scalar_width(c);
        }
        let b0 = bytes[i];
        proof {
            assert(bytes@.skip(i as int)[0] == b0);
            assert(encode_scalar(c as u32)[0] == b0);
        }
        let w: usize = if b0 < 0x80 {
            proof {
                lemma_ctl_w1(c as u32);
            }
            if b0 < 0x20 || b0 == 0x7f {
                proof {
                    assert(is_ctl_char(s@[k as int]));
                }
                return None;
            }
            proof {
                assert(!is_ctl_char(c));
            }
            1
        } else if b0 < 0xE0 {
            proof {
                assert(encode_scalar(c as u32).len() == 2);
                assert(has_width_2_encoding(c as u32));
                assert(encode_scalar(c as u32)[1] == bytes@.skip(i as int)[1]);
                assert(bytes@.skip(i as int)[1] == bytes@[i as int + 1]);
                lemma_ctl_w2(c as u32);
            }
            let b1 = bytes[i + 1];
            if b0 == 0xC2 && b1 <= 0x9F {
                proof {
                    assert(is_ctl_char(s@[k as int]));
                }
                return None;
            }
            proof {
                assert(!is_ctl_char(c));
            }
            2
        } else {
            proof {
                assert(c as u32 >= 0x800);
                assert(!is_ctl_char(c));
            }
            if b0 < 0xF0 {
                3
            } else {
                4
            }
        };
        proof {
            assert(w == encode_scalar(c as u32).len());
            assert(encode_utf8(rest).len() == w + encode_utf8(tc.skip(k as int + 1)).len());
            assert(i + w <= n);
            assert(encode_utf8(tc.skip(k as int + 1)) =~= bytes@.skip(i as int + w as int)) by {
                let e2 = encode_utf8(tc.skip(k as int + 1));
                assert(encode_utf8(rest) == encode_scalar(c as u32) + e2);
                assert forall|j: int|
                    0 <= j < e2.len() implies e2[j] == bytes@.skip(i as int + w as int)[j] by {
                    assert((encode_scalar(c as u32) + e2)[w + j] == e2[j]);
                    assert(encode_utf8(rest)[w + j] == bytes@.skip(i as int)[w + j]);
                    assert(bytes@.skip(i as int)[w + j] == bytes@[i + w + j]);
                    assert(bytes@.skip(i as int + w as int)[j] == bytes@[i + w + j]);
                }
            }
        }
        i = i + w;
        k = k + 1;
    }
    Some(k)
}

/// Whether every character of the string is in the action alphabet, checked
/// over the bytes.
fn all_action_chars(s: &str) -> (r: bool)
    ensures
        r == forall|i: int| 0 <= i < s@.len() ==> is_action_char(#[trigger] s@[i]),
        r ==> s@.len() == s.spec_bytes().len(),
{
    let b = s.as_bytes();
    let n = b.len();
    let mut i: usize = 0;
    while i < n
        invariant
            i <= n,
            n == b@.len(),
            b@ == s.spec_bytes(),
            forall|k: int|
                0 <= k < i ==> ((65 <= #[trigger] b@[k] && b@[k] <= 90) || (97 <= b@[k] && b@[k]
                    <= 122) || (48 <= b@[k] && b@[k] <= 57) || b@[k] == 95 || b@[k] == 58
                    || b@[k] == 45),
        decreases n - i,
    {
        let x = b[i];
        let ok = (65 <= x && x <= 90) || (97 <= x && x <= 122) || (48 <= x && x <= 57) || x == 95
            || x == 58 || x == 45;
        if !ok {
            proof {
                if forall|k: int| 0 <= k < s@.len() ==> is_action_char(#[trigger] s@[k]) {
                    assert forall|k: int| 0 <= k < s@.len() implies (#[trigger] s@[k] as u32)
                        < 128 by {
                        assert(is_action_char(s@[k]));
                    }
                    lemma_code_ascii(s@);
                    lemma_encode_ascii(s@);
                    assert(b@[i as int] == crate::ascii::ascii_bytes(s@)[i as int]);
                    assert(is_action_char(s@[i as int]));
                    assert(false);
                }
            }
            return false;
        }
        i = i + 1;
    }
    proof {
        assert forall|k: int| 0 <= k < b@.len() implies #[trigger] b@[k] < 128 by {}
        lemma_low_bytes_ascii(s@);
        is_ascii_chars_encode_utf8(s@);
        assert forall|k: int| 0 <= k < s@.len() implies is_action_char(#[trigger] s@[k]) by {
            assert(s@[k] as u8 == b@[k]);
        }
    }
    true
}

/// Validate a mint request: the subject must be 1 through 256 bytes with no
/// control characters, the action 1 through 64 characters of its alphabet.
pub fn validate_request(req: &MintRequest) -> (r: Result<(), Error>)
    ensures
        r is Ok <==> valid_sub(req.sub@) && valid_action(req.action@),
        r is Err ==> r matches Err(Error::Validation(_)),
{
    let sub_chars = match sub_measure(req.sub.as_str()) {
        Some(k) => k,
        None => {
            return Err(Error::Validation("sub contains control characters".to_owned()));
        },
    };
    if sub_chars == 0 || sub_chars > 256 {
        return Err(Error::Validation("sub must be 1-256 characters".to_owned()));
    }
    if !all_action_chars(req.action.as_str()) {
        return Err(
            Error::Validation(
                "action must be 1-64 chars (alphanumeric, underscore, colon, hyphen)".to_owned(),
            ),
        );
    }
    let act_len = req.action.as_str().as_bytes().len();
    if act_len == 0 || act_len > 64 {
        return Err(
            Error::Validation(
                "action must be 1-64 chars (alphanumeric, underscore, colon, hyphen)".to_owned(),
            ),
        );
    }
    Ok(())
}

/// Clamp a requested lifetime into the allowed 1 through 300 seconds.
pub fn clamp_ttl(ttl: i64) -> (r: i64)
    ensures
        r == if ttl < 1 {
            1int
        } else if ttl > 300 {
            300int
        } else {
            ttl as int
        },
{
    if ttl < 1 {
        1
    } else if ttl > 300 {
        300
    } else {
        ttl
    }
}

/// The claim a mint issues for these inputs at the instant `now`.
pub open spec fn minted_claim(
    sub: Seq<char>,
    action: Seq<char>,
    ttl: i64,
    jti: Seq<char>,
    now: i64,
) -> ClaimsV {
    let t = if ttl < 1 {
        1int
    } else if ttl > 300 {
        300int
    } else {
        ttl as int
    };
    let iat = if now < 0 {
        0int
    } else if now > MAX_UNIX_TS - 300 {
        MAX_UNIX_TS - 300
    } else {
        now as int
    };
    ClaimsV { jti, sub, action, iat, exp: iat + t }
}

/// Issue a token at the instant `now`: validate, enforce policy, clamp the
/// lifetime, build the claim, sign. Succeeds exactly on valid requests whose
/// action the policy admits; validation failures and policy denials are
/// reported as their own kinds.
#[verifier::rlimit(100)]
pub fn mint_issue(
    sub: String,
    action: String,
    ttl_seconds: i64,
    policy: &PolicyEngine,
    key: &Keypair,
    jti: String,
    now: i64,
) -> (r: Result<MintResponse, Error>)
    requires
        key.wf(),
        1 <= jti@.len() <= 64,
        forall|i: int| 0 <= i < jti@.len() ==> is_jti_char(#[trigger] jti@[i]),
    ensures
        r is Ok <==> valid_sub(sub@) && valid_action(action@) && check_spec(
            policy@,
            encode_utf8(action@),
        ),
        !(valid_sub(sub@) && valid_action(action@)) ==> r matches Err(Error::Validation(_)),
        (valid_sub(sub@) && valid_action(action@) && !check_spec(
            policy@,
            encode_utf8(action@),
        )) ==> r matches Err(Error::PolicyViolation(_)),
        r is Ok ==> ({
            let cm = minted_claim(sub@, action@, ttl_seconds, jti@, now);
            &&& claims_wf(cm)
            &&& r.unwrap().token@ == token_of(cm, key.sk@)
            &&& token_wf(cm, key.sk@)
            &&& r.unwrap().jti@ == jti@
            &&& r.unwrap().exp@ == decode_utf8(rfc3339_bytes(cm.exp))
        }),
{
    let req = MintRequest { sub, action, ttl_seconds, id_token: None };
    if let Err(e) = validate_request(&req) {
        return Err(e);
    }
    match policy.check(req.action.as_str()) {
        Ok(()) => {},
        Err(v) => {
            return Err(Error::PolicyViolation(v.action_type));
        },
    }
    let ttl = clamp_ttl(req.ttl_seconds);
    let claims = Claims::new_at(req.sub, req.action, ttl, jti, now);
    proof {
        assert(claims@ =~= minted_claim(sub@, action@, ttl_seconds, jti@, now));
        assert(claims_wf(claims@));
    }
    let token = match sign_token(&claims, key) {
        Ok(t) => t,
        Err(e) => {
            return Err(e);
        },
    };
    let exp_bytes = format_rfc3339(claims.exp);
    proof {
        lemma_rfc3339_low(claims.exp as int);
        lemma_low_bytes_valid(exp_bytes@);
    }
    let exp_s = match string_from_utf8(exp_bytes) {
        Some(s) => s,
        None => {
            return Err(Error::Serialization);
        },
    };
    Ok(MintResponse { token, jti: claims.jti, exp: exp_s })
}

} // verus!
