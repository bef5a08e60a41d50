//! Token wire format: `b64url(payload_json) "." b64url(signature)`, where the
//! Ed25519 signature covers the ASCII bytes of the encoded payload segment.
//! Verification checks the size cap, the segment shape, and the signature
//! before a single payload byte is parsed; expiry is checked last.

use vstd::prelude::*;
use vstd::utf8::*;
use vstd::string::StringSliceAdditionalSpecFns;
use vstd::string::StringExecFns;
use crate::ascii::{ascii_bytes, lemma_code_ascii, lemma_encode_ascii, lemma_low_bytes_ascii};
use crate::b64::{b64url_decode, b64url_encode, b64url_of, is_b64url_char};
use crate::claims::{Claims, ClaimsV, claims_wf};
use crate::clock::now_unix;
use crate::error::Error;
use crate::payload::{encode_claims, json_of, parse_claims};
use crate::signing::{ed25519_accepts, ed25519_sig, ed25519_vk, sign_message, signature_accepted,
    Keypair};
use crate::timefmt::MAX_UNIX_TS;

verus! {

/// The encoded payload segment of a claim's token.
pub open spec fn payload_seg(cm: ClaimsV) -> Seq<char> {
    b64url_of(json_of(cm))
}

/// The signature a key produces for a claim's payload segment.
pub open spec fn token_sig(cm: ClaimsV, sk: Seq<u8>) -> Seq<u8> {
    ed25519_sig(sk, ascii_bytes(payload_seg(cm)))
}

/// The full wire token of a claim under a secret key.
pub open spec fn token_of(cm: ClaimsV, sk: Seq<u8>) -> Seq<char> {
    payload_seg(cm) + seq!['.'] + b64url_of(token_sig(cm, sk))
}

/// Shape facts about a claim's token that hold of every token the signer
/// emits: both segments stay in the URL-safe alphabet, the signature is 64
/// bytes, and the whole token is within the size cap.
pub open spec fn token_wf(cm: ClaimsV, sk: Seq<u8>) -> bool {
    &&& forall|i: int|
        0 <= i < payload_seg(cm).len() ==> is_b64url_char(#[trigger] payload_seg(cm)[i])
    &&& forall|i: int|
        0 <= i < b64url_of(token_sig(cm, sk)).len() ==> is_b64url_char(
            #[trigger] b64url_of(token_sig(cm, sk))[i],
        )
    &&& token_sig(cm, sk).len() == 64
    &&& token_of(cm, sk).len() <= 2048
}

/// A byte the token whitelist admits: the URL-safe base64 alphabet plus `=`.
pub open spec fn is_token_byte(x: u8) -> bool {
    (65 <= x && x <= 90) || (97 <= x && x <= 122) || (48 <= x && x <= 57) || x == 45 || x == 95
        || x == 61
}

/// Sign a well-formed claim. Signing is total: the payload encoding cannot
/// fail and Ed25519 signing cannot fail, so the result is always `Ok`.
pub fn sign_token(claims: &Claims, key: &Keypair) -> (r: Result<String, Error>)
    requires
        key.wf(),
        claims_wf(claims@),
    ensures
        r is Ok,
        r.unwrap()@ == token_of(claims@, key.sk@),
        token_wf(claims@, key.sk@),
{
    let payload = encode_claims(claims);
    let p = b64url_encode(payload.as_slice());
    proof {
        assert forall|i: int| 0 <= i < p@.len() implies (#[trigger] p@[i] as u32) < 128 by {
            assert(is_b64url_char(p@[i]));
        }
        lemma_code_ascii(p@);
        lemma_encode_ascii(p@);
    }
    let sig = sign_message(key.sk.as_slice(), p.as_str().as_bytes());
    let q = b64url_encode(sig.as_slice());
    let mut out = p;
    out.append(".");
    out.append(q.as_str());
    proof {
        reveal_strlit(".");
        assert("."@ =~= seq!['.']);
        assert(out@ =~= token_of(claims@, key.sk@));
        assert(payload_seg(claims@).len() <= (1241 * 4 + 2) / 3);
        assert(b64url_of(token_sig(claims@, key.sk@)).len() == (64 * 4 + 2) / 3);
    }
    Ok(out)
}

/// Split a candidate token at its first `.` after the size and character
/// checks. Exactly the tokens of shape `seg "." seg` under the whitelist and
/// size cap pass, and a signer-produced token splits into its two segments.
#[verifier::rlimit(100)]
fn split_token(token: &str) -> (r: Result<(&str, &str), Error>)
    ensures
        r is Ok ==> ({
            let p = r.unwrap().0;
            let q = r.unwrap().1;
            &&& token@ == p@ + seq!['.'] + q@
            &&& is_ascii_chars(p@)
            &&& is_ascii_chars(q@)
            &&& encode_utf8(p@) == ascii_bytes(p@)
            &&& encode_utf8(q@) == ascii_bytes(q@)
            &&& forall|i: int| 0 <= i < p@.len() ==> is_token_byte(#[trigger] p@[i] as u8)
            &&& forall|i: int| 0 <= i < q@.len() ==> is_token_byte(#[trigger] q@[i] as u8)
        }),
        r is Ok ==> encode_utf8(token@)[r.unwrap().0@.len() as int] == 46,
        r is Ok ==> forall|i: int|
            0 <= i < encode_utf8(token@).len() && i != r.unwrap().0@.len() ==> is_token_byte(
                #[trigger] encode_utf8(token@)[i],
            ),
        encode_utf8(token@).len() > 2048 ==> r matches Err(Error::InvalidToken(_)),
        (forall|i: int| 0 <= i < encode_utf8(token@).len() ==> #[trigger] encode_utf8(token@)[i]
            != 46) ==> r is Err,
        r is Err ==> (r matches Err(Error::InvalidToken(_))),
        forall|cm: ClaimsV, sk: Seq<u8>|
            token_wf(cm, sk) && token@ == token_of(cm, sk) ==> r is Ok && r.unwrap().0@
                == payload_seg(cm) && r.unwrap().1@ == b64url_of(token_sig(cm, sk)),
{
    let tb = token.as_bytes();
    let n = tb.len();
    proof {
        encode_utf8_valid_utf8(token@);
    }
    if n > 2048 {
        proof {
            assert forall|cm: ClaimsV, sk: Seq<u8>|
                !(token_wf(cm, sk) && token@ == token_of(cm, sk)) by {
                if token_wf(cm, sk) && token@ == token_of(cm, sk) {
                    lemma_token_chars(cm, sk);
                }
            }
        }
        return Err(Error::InvalidToken("token exceeds size limit".to_owned()));
    }
    let mut dot: usize = 0;
    let mut found = false;
    while dot < n && !found
        invariant
            dot <= n,
            n == tb@.len(),
            tb@ == encode_utf8(token@),
            !found ==> forall|k: int| 0 <= k < dot ==> tb@[k] != 46,
            found ==> dot < n && tb@[dot as int] == 46 && (forall|k: int|
                0 <= k < dot ==> tb@[k] != 46),
        decreases n - dot + (if found { 0int } else { 1int }),
    {
        if tb[dot] == 46 {
            found = true;
        } else {
            dot = dot + 1;
        }
    }
    if !found {
        proof {
            assert forall|cm: ClaimsV, sk: Seq<u8>|
                !(token_wf(cm, sk) && token@ == token_of(cm, sk)) by {
                if token_wf(cm, sk) && token@ == token_of(cm, sk) {
                    lemma_token_chars(cm, sk);
                    let d = payload_seg(cm).len() as int;
                    assert(token@[d] == '.');
                    assert(tb@[d] == 46);
                }
            }
        }
        return Err(Error::InvalidToken("missing separator".to_owned()));
    }
    let mut k: usize = 0;
    while k < n
        invariant
            k <= n,
            n == tb@.len(),
            tb@ == encode_utf8(token@),
            dot < n,
            tb@[dot as int] == 46,
            forall|t: int| 0 <= t < dot ==> tb@[t] != 46,
            forall|t: int| 0 <= t < k && t != dot ==> is_token_byte(#[trigger] tb@[t]),
        decreases n - k,
    {
        if k != dot {
            let x = tb[k];
            let ok = (65 <= x && x <= 90) || (97 <= x && x <= 122) || (48 <= x && x <= 57) || x
                == 45 || x == 95 || x == 61;
            if !ok {
                proof {
                    assert forall|cm: ClaimsV, sk: Seq<u8>|
                        !(token_wf(cm, sk) && token@ == token_of(cm, sk)) by {
                        if token_wf(cm, sk) && token@ == token_of(cm, sk) {
                            lemma_token_chars(cm, sk);
                            let d = payload_seg(cm).len() as int;
                            assert(token@[d] == '.');
                            assert(tb@[d] == 46);
                            assert(dot == d);
                            assert(is_token_byte(tb@[k as int]));
                        }
                    }
                }
                return Err(Error::InvalidToken("invalid base64url characters".to_owned()));
            }
        }
        k = k + 1;
    }
    proof {
        assert(is_char_boundary(tb@, dot as int)) by {
            is_char_boundary_iff_not_is_continuation_byte(tb@, dot as int);
        }
    }
    let pair = token.split_at(dot);
    let p_str = pair.0;
    let rest = pair.1;
    proof {
        valid_utf8_split(tb@, dot as int);
        assert(rest.spec_bytes().len() == n - dot);
        assert(rest.spec_bytes()[0] == 46);
        if 1 < rest.spec_bytes().len() {
            assert(rest.spec_bytes()[1] == tb@[dot as int + 1]);
            assert(is_token_byte(tb@[dot as int + 1]));
            assert(is_char_boundary(rest.spec_bytes(), 1)) by {
                is_char_boundary_iff_not_is_continuation_byte(rest.spec_bytes(), 1);
            }
        } else {
            assert(is_char_boundary(rest.spec_bytes(), 1)) by {
                is_char_boundary_start_end_of_seq(rest.spec_bytes());
            }
        }
    }
    let pair2 = rest.split_at(1);
    let q_str = pair2.1;
    proof {
        lemma_split_chars(token@, tb@, p_str@, rest@, q_str@, dot as int);
        assert(p_str@.len() == dot && q_str@.len() == n - dot - 1);
        assert forall|cm: ClaimsV, sk: Seq<u8>|
            token_wf(cm, sk) && token@ == token_of(cm, sk) implies p_str@ == payload_seg(cm)
            && q_str@ == b64url_of(token_sig(cm, sk)) by {
            lemma_token_chars(cm, sk);
            let p = payload_seg(cm);
            let q = b64url_of(token_sig(cm, sk));
            let d = p.len() as int;
            assert(tb@ =~= ascii_bytes(token_of(cm, sk)));
            if dot < d {
                assert(tb@[dot as int] != 46);
                assert(false);
            }
            if dot > d {
                assert(tb@[d] == 46);
                assert(false);
            }
            assert(p_str@ =~= p) by {
                assert forall|i: int| 0 <= i < d implies p_str@[i] == p[i] by {
                    assert((p_str@ + seq!['.'] + q_str@)[i] == p_str@[i]);
                    assert((p + seq!['.'] + q)[i] == p[i]);
                }
            }
            assert(q_str@ =~= q) by {
                assert(q.len() == token@.len() - d - 1);
                assert forall|i: int| 0 <= i < q.len() implies q_str@[i] == q[i] by {
                    assert((p_str@ + seq!['.'] + q_str@)[d + 1 + i] == q_str@[i]);
                    assert((p + seq!['.'] + q)[d + 1 + i] == q[i]);
                }
            }
        }
    }
    Ok((p_str, q_str))
}

proof fn lemma_token_chars(cm: ClaimsV, sk: Seq<u8>)
    requires
        token_wf(cm, sk),
    ensures
        is_ascii_chars(token_of(cm, sk)),
        encode_utf8(token_of(cm, sk)) == ascii_bytes(token_of(cm, sk)),
        forall|i: int|
            0 <= i < token_of(cm, sk).len() ==> (#[trigger] ascii_bytes(token_of(cm, sk))[i]
                == token_of(cm, sk)[i] as u8),
        forall|i: int|
            0 <= i < payload_seg(cm).len() ==> ascii_bytes(token_of(cm, sk))[i] != 46
                && is_token_byte(#[trigger] ascii_bytes(token_of(cm, sk))[i]),
        ascii_bytes(token_of(cm, sk))[payload_seg(cm).len() as int] == 46,
        forall|i: int|
            payload_seg(cm).len() < i < token_of(cm, sk).len() ==> is_token_byte(
                #[trigger] ascii_bytes(token_of(cm, sk))[i],
            ),
{
    let t = token_of(cm, sk);
    let p = payload_seg(cm);
    let q = b64url_of(token_sig(cm, sk));
    assert('.' as u32 == 46);
    assert forall|i: int| 0 <= i < t.len() implies (#[trigger] t[i] as u32) < 128 by {
        if i < p.len() {
            assert(t[i] == p[i]);
            assert(is_b64url_char(p[i]));
        } else if i == p.len() {
            assert(t[i] == '.');
        } else {
            assert(t[i] == q[i - p.len() - 1]);
            assert(is_b64url_char(q[i - p.len() - 1]));
        }
    }
    lemma_code_ascii(t);
    lemma_encode_ascii(t);
    assert forall|i: int|
        0 <= i < p.len() implies ascii_bytes(t)[i] != 46 && is_token_byte(
        #[trigger] ascii_bytes(t)[i],
    ) by {
        assert(t[i] == p[i]);
        assert(is_b64url_char(p[i]));
    }
    assert forall|i: int| p.len() < i < t.len() implies is_token_byte(
        #[trigger] ascii_bytes(t)[i],
    ) by {
        assert(t[i] == q[i - p.len() - 1]);
        assert(is_b64url_char(q[i - p.len() - 1]));
    }
}

/// Characters of the two halves of a split ASCII token.
proof fn lemma_split_chars(
    tok: Seq<char>,
    tb: Seq<u8>,
    p: Seq<char>,
    rest: Seq<char>,
    q: Seq<char>,
    dot: int,
)
    requires
        tb == encode_utf8(tok),
        0 <= dot < tb.len(),
        tb[dot] == 46,
        forall|t: int| 0 <= t < tb.len() && t != dot ==> is_token_byte(#[trigger] tb[t]),
        encode_utf8(p) == tb.subrange(0, dot),
        encode_utf8(rest) == tb.subrange(dot, tb.len() as int),
        encode_utf8(q) == encode_utf8(rest).subrange(1, encode_utf8(rest).len() as int),
    ensures
        is_ascii_chars(p),
        is_ascii_chars(q),
        encode_utf8(p) == ascii_bytes(p),
        encode_utf8(q) == ascii_bytes(q),
        forall|i: int| 0 <= i < p.len() ==> is_token_byte(#[trigger] p[i] as u8),
        forall|i: int| 0 <= i < q.len() ==> is_token_byte(#[trigger] q[i] as u8),
        tok == p + seq!['.'] + q,
{
    assert forall|i: int| 0 <= i < encode_utf8(p).len() implies #[trigger] encode_utf8(p)[i]
        < 128 by {
        assert(encode_utf8(p)[i] == tb[i]);
        assert(is_token_byte(tb[i]));
    }
    lemma_low_bytes_ascii(p);
    lemma_encode_ascii(p);
    assert forall|i: int| 0 <= i < encode_utf8(q).len() implies #[trigger] encode_utf8(q)[i]
        < 128 by {
        assert(encode_utf8(q)[i] == encode_utf8(rest)[i + 1]);
        assert(encode_utf8(rest)[i + 1] == tb[dot + 1 + i]);
        assert(is_token_byte(tb[dot + 1 + i]));
    }
    lemma_low_bytes_ascii(q);
    lemma_encode_ascii(q);
    assert forall|i: int| 0 <= i < p.len() implies is_token_byte(#[trigger] p[i] as u8) by {
        assert(ascii_bytes(p)[i] == p[i] as u8);
        assert(ascii_bytes(p)[i] == tb[i]);
    }
    assert forall|i: int| 0 <= i < q.len() implies is_token_byte(#[trigger] q[i] as u8) by {
        assert(ascii_bytes(q)[i] == q[i] as u8);
        assert(ascii_bytes(q)[i] == tb[dot + 1 + i]);
    }
    let recon = p + seq!['.'] + q;
    assert('.' as u32 == 46);
    assert forall|i: int| 0 <= i < recon.len() implies (#[trigger] recon[i] as u32) < 128 by {
        if i < p.len() {
            assert(recon[i] == p[i]);
        } else if i == p.len() {
            assert(recon[i] == '.');
        } else {
            assert(recon[i] == q[i - p.len() - 1]);
        }
    }
    lemma_code_ascii(recon);
    lemma_encode_ascii(recon);
    assert(encode_utf8(recon) =~= tb) by {
        assert(ascii_bytes(recon).len() == p.len() + 1 + q.len());
        assert(encode_utf8(p).len() == dot);
        assert(encode_utf8(q).len() == tb.len() - dot - 1);
        assert forall|i: int| 0 <= i < ascii_bytes(recon).len() implies ascii_bytes(recon)[i]
            == tb[i] by {
            if i < p.len() {
                assert(recon[i] == p[i]);
                assert(ascii_bytes(p)[i] == tb[i]);
            } else if i == p.len() {
                assert(recon[i] == '.');
            } else {
                assert(recon[i] == q[i - p.len() - 1]);
                assert(ascii_bytes(q)[i - p.len() - 1] == tb[i]);
            }
        }
    }
    encode_utf8_decode_utf8(recon);
    encode_utf8_decode_utf8(tok);
    assert(tok == recon);
}

/// The token splits as `p "." b64url(sig)` and the key accepts `sig` over
/// the ASCII bytes of `p`.
pub open spec fn accepted_split(t: Seq<char>, vk: Seq<u8>) -> bool {
    exists|p: Seq<char>, sig: Seq<u8>|
        t == p + seq!['.'] + b64url_of(sig) && sig.len() == 64 && #[trigger] ed25519_accepts(
            vk,
            ascii_bytes(p),
            sig,
        )
}

/// The token splits as `p "." b64url(sig)` and the key rejects `sig` over
/// the ASCII bytes of `p`.
pub open spec fn rejected_split(t: Seq<char>, vk: Seq<u8>) -> bool {
    exists|p: Seq<char>, sig: Seq<u8>|
        t == p + seq!['.'] + b64url_of(sig) && sig.len() == 64 && !(#[trigger] ed25519_accepts(
            vk,
            ascii_bytes(p),
            sig,
        ))
}

/// Verify a token against a verifying key at the instant `now`: size cap,
/// shape, whitelist, signature over the payload segment's ASCII bytes, and
/// only then payload parsing and the expiry check.
///
/// The final clause is the signature binding law: a token signed over a
/// well-formed claim verifies back to exactly that claim under the matching
/// verifying key while it is unexpired, and is rejected as expired from its
/// expiry instant on.
#[verifier::rlimit(100)]
pub fn verify_token_at(token: &str, vk: &[u8], now: i64) -> (r: Result<Claims, Error>)
    requires
        vk@.len() == 32,
    ensures
        r is Ok ==> ({
            let cm = r.unwrap()@;
            &&& 0 <= cm.iat <= MAX_UNIX_TS
            &&& 0 <= cm.exp <= MAX_UNIX_TS
            &&& now < cm.exp
            &&& exists|sig: Seq<u8>|
                sig.len() == 64 && #[trigger] ed25519_accepts(
                    vk@,
                    ascii_bytes(b64url_of(json_of(cm))),
                    sig,
                )
        }),
        encode_utf8(token@).len() > 2048 ==> r matches Err(Error::InvalidToken(_)),
        r is Err ==> ((r matches Err(Error::InvalidToken(_))) || (r matches Err(
            Error::InvalidSignature,
        )) || (r matches Err(Error::Base64)) || (r matches Err(Error::Serialization)) || (
        r matches Err(Error::TokenExpired))),
        (forall|i: int|
            0 <= i < encode_utf8(token@).len() ==> #[trigger] encode_utf8(token@)[i] != 46)
            ==> r matches Err(Error::InvalidToken(_)),
        (exists|i: int|
            0 <= i < encode_utf8(token@).len() && #[trigger] encode_utf8(token@)[i] != 46
                && !is_token_byte(encode_utf8(token@)[i])) ==> r matches Err(
            Error::InvalidToken(_),
        ),
        (r is Ok || (r matches Err(Error::TokenExpired)) || (r matches Err(Error::Base64)) || (
        r matches Err(Error::Serialization))) ==> accepted_split(token@, vk@),
        r matches Err(Error::InvalidSignature) ==> rejected_split(token@, vk@),
        forall|cm: ClaimsV, sk: Seq<u8>|
            claims_wf(cm) && sk.len() == 32 && token_wf(cm, sk) && token@ == token_of(cm, sk)
                && vk@ == ed25519_vk(sk) ==> if now < cm.exp {
                r is Ok && r.unwrap()@ == cm
            } else {
                r matches Err(Error::TokenExpired)
            },
{
    let split = split_token(token);
    if split.is_err() {
        let e = match split {
            Err(e) => e,
            Ok(_) => Error::Serialization,
        };
        return Err(e);
    }
    let (p_str, q_str) = split.unwrap();
    let sig_o = b64url_decode(q_str);
    if sig_o.is_none() {
        return Err(Error::InvalidToken("signature segment is not base64url".to_owned()));
    }
    let sig = sig_o.unwrap();
    if sig.len() != 64 {
        return Err(Error::InvalidToken("signature must be 64 bytes".to_owned()));
    }
    let accepted = signature_accepted(vk, p_str.as_bytes(), sig.as_slice());
    if !accepted {
        proof {
            assert forall|cm: ClaimsV, sk: Seq<u8>|
                !(claims_wf(cm) && sk.len() == 32 && token_wf(cm, sk) && token@ == token_of(
                    cm,
                    sk,
                ) && vk@ == ed25519_vk(sk)) by {
                if claims_wf(cm) && sk.len() == 32 && token_wf(cm, sk) && token@ == token_of(
                    cm,
                    sk,
                ) && vk@ == ed25519_vk(sk) {
                    assert(sig@ == token_sig(cm, sk));
                    assert(ascii_bytes(p_str@) == ascii_bytes(payload_seg(cm)));
                    assert(sig@ == ed25519_sig(sk, ascii_bytes(p_str@)));
                }
            }
        }
        proof {
            assert(token@ == p_str@ + seq!['.'] + b64url_of(sig@));
            assert(!ed25519_accepts(vk@, ascii_bytes(p_str@), sig@));
        }
        return Err(Error::InvalidSignature);
    }
    proof {
        assert(token@ == p_str@ + seq!['.'] + b64url_of(sig@));
        assert(ed25519_accepts(vk@, ascii_bytes(p_str@), sig@));
    }
    let pb_o = b64url_decode(p_str);
    if pb_o.is_none() {
        return Err(Error::Base64);
    }
    let pb = pb_o.unwrap();
    let claims_o = parse_claims(pb.as_slice());
    if claims_o.is_none() {
        return Err(Error::Serialization);
    }
    let claims = claims_o.unwrap();
    if claims.is_expired_at(now) {
        return Err(Error::TokenExpired);
    }
    proof {
        assert(p_str@ == b64url_of(pb@));
        assert(pb@ == json_of(claims@));
        assert(exists|sig2: Seq<u8>|
            sig2.len() == 64 && #[trigger] ed25519_accepts(
                vk@,
                ascii_bytes(b64url_of(json_of(claims@))),
                sig2,
            )) by {
            assert(sig@.len() == 64 && ed25519_accepts(
                vk@,
                ascii_bytes(b64url_of(json_of(claims@))),
                sig@,
            ));
        }
    }
    Ok(claims)
}

/// Verify a token now, by the process clock.
pub fn verify_token(token: &str, vk: &[u8]) -> (r: Result<Claims, Error>)
    requires
        vk@.len() == 32,
    ensures
        r is Ok ==> ({
            let cm = r.unwrap()@;
            &&& 0 <= cm.iat <= MAX_UNIX_TS
            &&& 0 <= cm.exp <= MAX_UNIX_TS
            &&& exists|sig: Seq<u8>|
                sig.len() == 64 && #[trigger] ed25519_accepts(
                    vk@,
                    ascii_bytes(b64url_of(json_of(cm))),
                    sig,
                )
        }),
        encode_utf8(token@).len() > 2048 ==> r matches Err(Error::InvalidToken(_)),
        r is Err ==> ((r matches Err(Error::InvalidToken(_))) || (r matches Err(
            Error::InvalidSignature,
        )) || (r matches Err(Error::Base64)) || (r matches Err(Error::Serialization)) || (
        r matches Err(Error::TokenExpired))),
        (forall|i: int|
            0 <= i < encode_utf8(token@).len() ==> #[trigger] encode_utf8(token@)[i] != 46)
            ==> r matches Err(Error::InvalidToken(_)),
        (exists|i: int|
            0 <= i < encode_utf8(token@).len() && #[trigger] encode_utf8(token@)[i] != 46
                && !is_token_byte(encode_utf8(token@)[i])) ==> r matches Err(
            Error::InvalidToken(_),
        ),
        (r is Ok || (r matches Err(Error::TokenExpired)) || (r matches Err(Error::Base64)) || (
        r matches Err(Error::Serialization))) ==> accepted_split(token@, vk@),
        r matches Err(Error::InvalidSignature) ==> rejected_split(token@, vk@),
{
    let now = now_unix();
    verify_token_at(token, vk, now)
}

} // verus!
