//! The canonical JSON payload of a claim: a single object with exactly the
//! five fields `jti`, `sub`, `action`, `iat`, `exp`, in that order, with the
//! timestamps in RFC 3339 UTC form and `"` and `\` escaped inside `sub`.
//! The encoder emits exactly this form and the parser accepts exactly this
//! form, so encoding and parsing are inverses.

use vstd::prelude::*;
use vstd::utf8::*;
use vstd::string::StringSliceAdditionalSpecFns;
use crate::ascii::{ascii_bytes, lemma_code_ascii, lemma_encode_ascii, push_bytes, push_str_bytes, string_from_utf8};
use crate::claims::{Claims, ClaimsV, claims_wf, is_action_char, is_jti_char};
use crate::timefmt::{MAX_UNIX_TS, format_rfc3339, parse_rfc3339, rfc3339_bytes};

verus! {

/// JSON string escaping restricted to what can occur here: `"` and `\` get a
/// backslash, every other byte passes through.
pub open spec fn esc(b: Seq<u8>) -> Seq<u8>
    decreases b.len(),
{
    if b.len() == 0 {
        Seq::empty()
    } else if b[0] == 34 || b[0] == 92 {
        seq![92u8, b[0]] + esc(b.drop_first())
    } else {
        seq![b[0]] + esc(b.drop_first())
    }
}

pub proof fn lemma_esc_app(a: Seq<u8>, b: Seq<u8>)
    ensures
        esc(a + b) == esc(a) + esc(b),
    decreases a.len(),
{
    if a.len() == 0 {
        assert(a + b =~= b);
        assert(esc(a) + esc(b) =~= esc(b));
    } else {
        assert((a + b).drop_first() =~= a.drop_first() + b);
        lemma_esc_app(a.drop_first(), b);
        if a[0] == 34 || a[0] == 92 {
            assert(esc(a + b) =~= esc(a) + esc(b));
        } else {
            assert(esc(a + b) =~= esc(a) + esc(b));
        }
    }
}

pub proof fn lemma_esc_len(b: Seq<u8>)
    ensures
        b.len() <= esc(b).len() <= 2 * b.len(),
    decreases b.len(),
{
    if b.len() > 0 {
        lemma_esc_len(b.drop_first());
    }
}

/// Escaping passes untouched over bytes that need no escape.
proof fn lemma_esc_id(b: Seq<u8>)
    requires
        forall|i: int| 0 <= i < b.len() ==> #[trigger] b[i] != 34 && b[i] != 92,
    ensures
        esc(b) == b,
    decreases b.len(),
{
    if b.len() > 0 {
        assert forall|i: int|
            0 <= i < b.drop_first().len() implies #[trigger] b.drop_first()[i] != 34
            && b.drop_first()[i] != 92 by {
            assert(b[i + 1] != 34 && b[i + 1] != 92);
        }
        lemma_esc_id(b.drop_first());
        assert(esc(b) =~= b);
    }
}

/// Escaped UTF-8 text grows to at most four bytes per character: an ASCII
/// character escapes to at most two bytes, and a wider scalar's bytes are
/// all high and need no escape.
pub proof fn lemma_esc_encode_len(s: Seq<char>)
    ensures
        esc(encode_utf8(s)).len() <= 4 * s.len(),
    decreases s.len(),
{
    if s.len() > 0 {
        let v = s[0] as u32;
        char_is_scalar(s[0]);
        assert(encode_utf8(s) == encode_scalar(v) + encode_utf8(s.drop_first()));
        lemma_esc_app(encode_scalar(v), encode_utf8(s.drop_first()));
        lemma_esc_encode_len(s.drop_first());
        if has_width_1_encoding(v) {
            let b = encode_scalar(v);
            assert(b.len() == 1);
            assert(esc(b).len() <= 2) by {
                assert(b.drop_first() =~= Seq::<u8>::empty());
                assert(esc(Seq::<u8>::empty()) =~= Seq::<u8>::empty());
            }
        } else {
            assert forall|i: int|
                0 <= i < encode_scalar(v).len() implies #[trigger] encode_scalar(v)[i] != 34
                && encode_scalar(v)[i] != 92 by {
                assert(0xC0u8 | (((v >> 6) & 0x1F) as u8) >= 128) by (bit_vector);
                assert(0xE0u8 | (((v >> 12) & 0x0F) as u8) >= 128) by (bit_vector);
                assert(0xF0u8 | (((v >> 18) & 0x7) as u8) >= 128) by (bit_vector);
                assert(0x80u8 | ((v & 0x3F) as u8) >= 128) by (bit_vector);
                assert(0x80u8 | (((v >> 6) & 0x3F) as u8) >= 128) by (bit_vector);
                assert(0x80u8 | (((v >> 12) & 0x3F) as u8) >= 128) by (bit_vector);
            }
            lemma_esc_id(encode_scalar(v));
            assert(esc(encode_scalar(v)).len() <= 4);
        }
    }
}

/// Cancel a shared prefix of two equal concatenations.
proof fn lemma_strip_prefix(p: Seq<u8>, a: Seq<u8>, b: Seq<u8>)
    requires
        p + a == p + b,
    ensures
        a == b,
{
    assert((p + a).len() == p.len() + a.len());
    assert((p + b).len() == p.len() + b.len());
    assert(a.len() == b.len());
    assert forall|i: int| 0 <= i < a.len() implies a[i] == b[i] by {
        assert((p + a)[p.len() + i] == a[i]);
        assert((p + b)[p.len() + i] == b[i]);
    }
    assert(a =~= b);
}

/// One step of reading an escaped string: with `esc(out)` already consumed
/// and `rest` remaining, the next bytes of `rest` are forced by the content.
proof fn lemma_esc_next(content: Seq<u8>, out: Seq<u8>, rest: Seq<u8>, tail: Seq<u8>)
    requires
        esc(out) + rest == esc(content) + seq![34u8] + tail,
    ensures
        rest.len() > 0,
        rest[0] == 34 ==> out == content,
        rest[0] == 92 ==> rest.len() >= 2 && (rest[1] == 34 || rest[1] == 92) && esc(
            out.push(rest[1]),
        ) + rest.skip(2) == esc(content) + seq![34u8] + tail,
        (rest[0] != 34 && rest[0] != 92) ==> esc(out.push(rest[0])) + rest.skip(1) == esc(content)
            + seq![34u8] + tail,
    decreases out.len() + content.len(),
{
    let lhs = esc(out) + rest;
    let rhs = esc(content) + seq![34u8] + tail;
    assert(esc(Seq::<u8>::empty()) =~= Seq::<u8>::empty());
    if out.len() == 0 {
        assert(rest =~= rhs);
        if content.len() == 0 {
            assert(rest[0] == 34);
            assert(out =~= content);
        } else if content[0] == 34 || content[0] == 92 {
            assert(rest[0] == 92 && rest[1] == content[0]);
            assert(out.push(rest[1]) =~= seq![content[0]]);
            assert(esc(seq![content[0]]) =~= seq![92u8, content[0]]) by {
                assert(seq![content[0]].drop_first() =~= Seq::<u8>::empty());
                assert(esc(Seq::<u8>::empty()) =~= Seq::<u8>::empty());
            }
            assert(esc(content) =~= seq![92u8, content[0]] + esc(content.drop_first()));
            assert(esc(out.push(rest[1])) + rest.skip(2) =~= rhs);
        } else {
            assert(rest[0] == content[0]);
            assert(out.push(rest[0]) =~= seq![content[0]]);
            assert(esc(seq![content[0]]) =~= seq![content[0]]) by {
                assert(seq![content[0]].drop_first() =~= Seq::<u8>::empty());
                assert(esc(Seq::<u8>::empty()) =~= Seq::<u8>::empty());
            }
            assert(esc(content) =~= seq![content[0]] + esc(content.drop_first()));
            assert(esc(out.push(rest[0])) + rest.skip(1) =~= rhs);
        }
    } else {
        if out[0] == 34 || out[0] == 92 {
            assert(esc(out) =~= seq![92u8, out[0]] + esc(out.drop_first()));
            assert(lhs[0] == 92 && lhs[1] == out[0]);
            if content.len() == 0 {
                assert(rhs[0] == 34);
                assert(false);
            }
            if !(content[0] == 34 || content[0] == 92) {
                assert(rhs[0] == content[0]);
                assert(false);
            }
            assert(esc(content) =~= seq![92u8, content[0]] + esc(content.drop_first()));
            assert(content[0] == out[0]);
            assert(lhs =~= seq![92u8, out[0]] + (esc(out.drop_first()) + rest));
            assert(rhs =~= seq![92u8, out[0]] + (esc(content.drop_first()) + seq![34u8] + tail));
            lemma_strip_prefix(
                seq![92u8, out[0]],
                esc(out.drop_first()) + rest,
                esc(content.drop_first()) + seq![34u8] + tail,
            );
            lemma_esc_next(content.drop_first(), out.drop_first(), rest, tail);
            if rest[0] == 34 {
                assert(out.drop_first() == content.drop_first());
                assert(out.len() == content.len());
                assert forall|i: int| 0 <= i < out.len() implies out[i] == content[i] by {
                    if i > 0 {
                        assert(out[i] == out.drop_first()[i - 1]);
                        assert(content[i] == content.drop_first()[i - 1]);
                    }
                }
                assert(out =~= content);
            }
            if rest[0] == 92 {
                assert(out.push(rest[1]).drop_first() =~= out.drop_first().push(rest[1]));
                assert(esc(out.push(rest[1])) =~= seq![92u8, out[0]] + esc(
                    out.drop_first().push(rest[1]),
                ));
                assert(esc(out.push(rest[1])) + rest.skip(2) =~= rhs);
            }
            if rest[0] != 34 && rest[0] != 92 {
                assert(out.push(rest[0]).drop_first() =~= out.drop_first().push(rest[0]));
                assert(esc(out.push(rest[0])) =~= seq![92u8, out[0]] + esc(
                    out.drop_first().push(rest[0]),
                ));
                assert(esc(out.push(rest[0])) + rest.skip(1) =~= rhs);
            }
        } else {
            assert(esc(out) =~= seq![out[0]] + esc(out.drop_first()));
            assert(lhs[0] == out[0]);
            if content.len() == 0 {
                assert(rhs[0] == 34);
                assert(false);
            }
            if content[0] == 34 || content[0] == 92 {
                assert(esc(content) =~= seq![92u8, content[0]] + esc(content.drop_first()));
                assert(rhs[0] == 92);
                assert(false);
            }
            assert(esc(content) =~= seq![content[0]] + esc(content.drop_first()));
            assert(content[0] == out[0]);
            assert(lhs =~= seq![out[0]] + (esc(out.drop_first()) + rest));
            assert(rhs =~= seq![out[0]] + (esc(content.drop_first()) + seq![34u8] + tail));
            lemma_strip_prefix(
                seq![out[0]],
                esc(out.drop_first()) + rest,
                esc(content.drop_first()) + seq![34u8] + tail,
            );
            lemma_esc_next(content.drop_first(), out.drop_first(), rest, tail);
            if rest[0] == 34 {
                assert(out.drop_first() == content.drop_first());
                assert(out.len() == content.len());
                assert forall|i: int| 0 <= i < out.len() implies out[i] == content[i] by {
                    if i > 0 {
                        assert(out[i] == out.drop_first()[i - 1]);
                        assert(content[i] == content.drop_first()[i - 1]);
                    }
                }
                assert(out =~= content);
            }
            if rest[0] == 92 {
                assert(out.push(rest[1]).drop_first() =~= out.drop_first().push(rest[1]));
                assert(esc(out.push(rest[1])) =~= seq![out[0]] + esc(
                    out.drop_first().push(rest[1]),
                ));
                assert(esc(out.push(rest[1])) + rest.skip(2) =~= rhs);
            }
            if rest[0] != 34 && rest[0] != 92 {
                assert(out.push(rest[0]).drop_first() =~= out.drop_first().push(rest[0]));
                assert(esc(out.push(rest[0])) =~= seq![out[0]] + esc(
                    out.drop_first().push(rest[0]),
                ));
                assert(esc(out.push(rest[0])) + rest.skip(1) =~= rhs);
            }
        }
    }
}

/// `{"jti":"`
pub open spec fn l_jti() -> Seq<u8> {
    seq![123u8, 34u8, 106u8, 116u8, 105u8, 34u8, 58u8, 34u8]
}

/// `","sub":"`
pub open spec fn l_sub() -> Seq<u8> {
    seq![34u8, 44u8, 34u8, 115u8, 117u8, 98u8, 34u8, 58u8, 34u8]
}

/// `","action":"`
pub open spec fn l_action() -> Seq<u8> {
    seq![34u8, 44u8, 34u8, 97u8, 99u8, 116u8, 105u8, 111u8, 110u8, 34u8, 58u8, 34u8]
}

/// `","iat":"`
pub open spec fn l_iat() -> Seq<u8> {
    seq![34u8, 44u8, 34u8, 105u8, 97u8, 116u8, 34u8, 58u8, 34u8]
}

/// `","exp":"`
pub open spec fn l_exp() -> Seq<u8> {
    seq![34u8, 44u8, 34u8, 101u8, 120u8, 112u8, 34u8, 58u8, 34u8]
}

/// `"}`
pub open spec fn l_end() -> Seq<u8> {
    seq![34u8, 125u8]
}

/// The canonical payload bytes of a claim.
pub open spec fn json_of(c: ClaimsV) -> Seq<u8> {
    l_jti() + encode_utf8(c.jti) + l_sub() + esc(encode_utf8(c.sub)) + l_action() + encode_utf8(
        c.action,
    ) + l_iat() + rfc3339_bytes(c.iat) + l_exp() + rfc3339_bytes(c.exp) + l_end()
}

fn lit_jti() -> (v: Vec<u8>)
    ensures
        v@ == l_jti(),
{
    let mut v: Vec<u8> = Vec::new();
    v.push(123);
    v.push(34);
    v.push(106);
    v.push(116);
    v.push(105);
    v.push(34);
    v.push(58);
    v.push(34);
    proof {
        assert(v@ =~= l_jti());
    }
    v
}

fn lit_sub() -> (v: Vec<u8>)
    ensures
        v@ == l_sub(),
{
    let mut v: Vec<u8> = Vec::new();
    v.push(34);
    v.push(44);
    v.push(34);
    v.push(115);
    v.push(117);
    v.push(98);
    v.push(34);
    v.push(58);
    v.push(34);
    proof {
        assert(v@ =~= l_sub());
    }
    v
}

fn lit_action() -> (v: Vec<u8>)
    ensures
        v@ == l_action(),
{
    let mut v: Vec<u8> = Vec::new();
    v.push(34);
    v.push(44);
    v.push(34);
    v.push(97);
    v.push(99);
    v.push(116);
    v.push(105);
    v.push(111);
    v.push(110);
    v.push(34);
    v.push(58);
    v.push(34);
    proof {
        assert(v@ =~= l_action());
    }
    v
}

fn lit_iat() -> (v: Vec<u8>)
    ensures
        v@ == l_iat(),
{
    let mut v: Vec<u8> = Vec::new();
    v.push(34);
    v.push(44);
    v.push(34);
    v.push(105);
    v.push(97);
    v.push(116);
    v.push(34);
    v.push(58);
    v.push(34);
    proof {
        assert(v@ =~= l_iat());
    }
    v
}

fn lit_exp() -> (v: Vec<u8>)
    ensures
        v@ == l_exp(),
{
    let mut v: Vec<u8> = Vec::new();
    v.push(34);
    v.push(44);
    v.push(34);
    v.push(101);
    v.push(120);
    v.push(112);
    v.push(34);
    v.push(58);
    v.push(34);
    proof {
        assert(v@ =~= l_exp());
    }
    v
}

fn lit_end() -> (v: Vec<u8>)
    ensures
        v@ == l_end(),
{
    let mut v: Vec<u8> = Vec::new();
    v.push(34);
    v.push(125);
    proof {
        assert(v@ =~= l_end());
    }
    v
}

/// Append `b` with `"` and `\` escaped.
fn push_escaped(v: &mut Vec<u8>, b: &[u8])
    ensures
        final(v)@ == old(v)@ + esc(b@),
{
    let n = b.len();
    let mut i: usize = 0;
    while i < n
        invariant
            n == b@.len(),
            i <= n,
            v@ == old(v)@ + esc(b@.subrange(0, i as int)),
        decreases n - i,
    {
        let x = b[i];
        proof {
            lemma_esc_app(b@.subrange(0, i as int), seq![b@[i as int]]);
            assert(b@.subrange(0, i as int) + seq![b@[i as int]] =~= b@.subrange(0, i as int + 1));
            assert(seq![b@[i as int]].drop_first() =~= Seq::<u8>::empty());
            assert(esc(Seq::<u8>::empty()) =~= Seq::<u8>::empty());
        }
        if x == 34 || x == 92 {
            proof {
                assert(esc(seq![b@[i as int]]) =~= seq![92u8, b@[i as int]]);
            }
            v.push(92);
            v.push(x);
        } else {
            proof {
                assert(esc(seq![b@[i as int]]) =~= seq![b@[i as int]]);
            }
            v.push(x);
        }
        proof {
            assert(v@ =~= old(v)@ + esc(b@.subrange(0, i as int + 1)));
        }
        i = i + 1;
    }
    proof {
        assert(b@.subrange(0, n as int) =~= b@);
    }
}

/// Encode a well-formed claim into its canonical payload bytes. The result
/// is bounded, which in turn bounds the token.
pub fn encode_claims(c: &Claims) -> (r: Vec<u8>)
    requires
        claims_wf(c@),
    ensures
        r@ == json_of(c@),
        r@.len() <= 1241,
{
    let mut out: Vec<u8> = Vec::new();
    let l1 = lit_jti();
    push_bytes(&mut out, l1.as_slice());
    push_str_bytes(&mut out, self_str(&c.jti));
    let l2 = lit_sub();
    push_bytes(&mut out, l2.as_slice());
    push_escaped(&mut out, self_str(&c.sub).as_bytes());
    let l3 = lit_action();
    push_bytes(&mut out, l3.as_slice());
    push_str_bytes(&mut out, self_str(&c.action));
    let l4 = lit_iat();
    push_bytes(&mut out, l4.as_slice());
    let iat_bytes = format_rfc3339(c.iat);
    push_bytes(&mut out, iat_bytes.as_slice());
    let l5 = lit_exp();
    push_bytes(&mut out, l5.as_slice());
    let exp_bytes = format_rfc3339(c.exp);
    push_bytes(&mut out, exp_bytes.as_slice());
    let l6 = lit_end();
    push_bytes(&mut out, l6.as_slice());
    proof {
        assert(out@ =~= json_of(c@));
        lemma_code_ascii(c@.jti);
        lemma_encode_ascii(c@.jti);
        lemma_code_ascii(c@.action);
        lemma_encode_ascii(c@.action);
        lemma_esc_encode_len(c@.sub);
    }
    out
}

/// View a `String` as a `&str` (explicit so contracts see the same text).
fn self_str(s: &String) -> (r: &str)
    ensures
        r@ == s@,
        r.spec_bytes() == encode_utf8(s@),
{
    s.as_str()
}

/// A byte of the token id alphabet.
pub open spec fn is_jti_byte(x: u8) -> bool {
    (48 <= x && x <= 57) || (97 <= x && x <= 102) || x == 45
}

/// A byte of the action alphabet.
pub open spec fn is_action_byte(x: u8) -> bool {
    (65 <= x && x <= 90) || (97 <= x && x <= 122) || (48 <= x && x <= 57) || x == 95 || x == 58
        || x == 45
}

pub open spec fn field_byte(x: u8, jti_mode: bool) -> bool {
    if jti_mode {
        is_jti_byte(x)
    } else {
        is_action_byte(x)
    }
}

/// Splitting a known concatenation at a position.
proof fn lemma_skip_part(b: Seq<u8>, i: int, p: Seq<u8>, rest: Seq<u8>)
    requires
        0 <= i <= b.len(),
        b.skip(i) == p + rest,
    ensures
        i + p.len() <= b.len(),
        b.subrange(i, i + p.len()) == p,
        b.skip(i + p.len()) == rest,
{
    assert(b.skip(i).len() == b.len() - i);
    assert(b.subrange(i, i + p.len() as int) =~= p) by {
        assert forall|k: int| 0 <= k < p.len() implies b[i + k] == p[k] by {
            assert(b.skip(i)[k] == b[i + k]);
            assert((p + rest)[k] == p[k]);
        }
    }
    assert(b.skip(i + p.len() as int) =~= rest) by {
        assert forall|k: int| 0 <= k < rest.len() implies b[i + p.len() + k] == rest[k] by {
            assert(b.skip(i)[p.len() + k] == b[i + p.len() + k]);
            assert((p + rest)[p.len() + k] == rest[k]);
        }
    }
}

/// Joining adjacent subranges.
proof fn lemma_join(b: Seq<u8>, i: int, j: int, k: int)
    requires
        0 <= i <= j <= k <= b.len(),
    ensures
        b.subrange(i, k) == b.subrange(i, j) + b.subrange(j, k),
{
    assert(b.subrange(i, k) =~= b.subrange(i, j) + b.subrange(j, k));
}

/// The tail that follows the token id and its closing quote.
pub open spec fn t_jti(c: ClaimsV) -> Seq<u8> {
    l_sub().skip(1) + (esc(encode_utf8(c.sub)) + (l_action() + (encode_utf8(c.action) + (l_iat()
        + (rfc3339_bytes(c.iat) + (l_exp() + (rfc3339_bytes(c.exp) + l_end())))))))
}

/// The tail that follows the subject and its closing quote.
pub open spec fn t_sub(c: ClaimsV) -> Seq<u8> {
    l_action().skip(1) + (encode_utf8(c.action) + (l_iat() + (rfc3339_bytes(c.iat) + (l_exp()
        + (rfc3339_bytes(c.exp) + l_end())))))
}

/// The tail that follows the action and its closing quote.
pub open spec fn t_action(c: ClaimsV) -> Seq<u8> {
    l_iat().skip(1) + (rfc3339_bytes(c.iat) + (l_exp() + (rfc3339_bytes(c.exp) + l_end())))
}

/// Concatenation reassociates.
proof fn lemma_assoc3(a: Seq<u8>, b: Seq<u8>, c: Seq<u8>)
    ensures
        (a + b) + c == a + (b + c),
{
    assert((a + b) + c =~= a + (b + c));
}

/// First half of the payload split: through the subject field.
#[verifier::rlimit(100)]
proof fn lemma_json_head(b: Seq<u8>, c: ClaimsV)
    requires
        b == json_of(c),
    ensures
        ({
            let s1 = encode_utf8(c.jti);
            let e2 = esc(encode_utf8(c.sub));
            let s3 = encode_utf8(c.action);
            let i1 = 8 + s1.len() as int;
            &&& b.subrange(0, 8) == l_jti()
            &&& b.skip(8) == s1 + seq![34u8] + t_jti(c)
            &&& b.subrange(i1, i1 + 9) == l_sub()
            &&& b.skip(i1 + 9) == e2 + seq![34u8] + t_sub(c)
            &&& b.skip(i1 + 9 + e2.len()) == l_action() + (s3 + (l_iat() + (rfc3339_bytes(c.iat)
                + (l_exp() + (rfc3339_bytes(c.exp) + l_end())))))
        }),
{
    let s1 = encode_utf8(c.jti);
    let e2 = esc(encode_utf8(c.sub));
    let s3 = encode_utf8(c.action);
    let ri = rfc3339_bytes(c.iat);
    let re = rfc3339_bytes(c.exp);
    let i1 = 8 + s1.len() as int;
    let x5 = re + l_end();
    let x4 = ri + (l_exp() + x5);
    let x3 = s3 + (l_iat() + x4);
    let x2 = e2 + (l_action() + x3);
    let rest1 = s1 + (l_sub() + x2);
    let p1 = l_jti() + s1;
    let p2 = p1 + l_sub();
    let p3 = p2 + e2;
    let p4 = p3 + l_action();
    let p5 = p4 + s3;
    let p6 = p5 + l_iat();
    let p7 = p6 + ri;
    let p8 = p7 + l_exp();
    let p9 = p8 + re;
    assert(b == p9 + l_end());
    lemma_assoc3(p8, re, l_end());
    lemma_assoc3(p7, l_exp(), x5);
    lemma_assoc3(p6, ri, l_exp() + x5);
    lemma_assoc3(p5, l_iat(), x4);
    lemma_assoc3(p4, s3, l_iat() + x4);
    lemma_assoc3(p3, l_action(), x3);
    lemma_assoc3(p2, e2, l_action() + x3);
    lemma_assoc3(p1, l_sub(), x2);
    lemma_assoc3(l_jti(), s1, l_sub() + x2);
    assert(b == l_jti() + rest1);
    assert(b.skip(0) =~= b);
    lemma_skip_part(b, 0, l_jti(), rest1);
    assert(l_sub() =~= seq![34u8] + l_sub().skip(1));
    assert(rest1 == s1 + seq![34u8] + t_jti(c)) by {
        lemma_assoc3(seq![34u8], l_sub().skip(1), x2);
        lemma_assoc3(s1, seq![34u8], t_jti(c));
        assert(t_jti(c) == l_sub().skip(1) + x2);
    }
    lemma_skip_part(b, 8, s1, l_sub() + x2);
    lemma_skip_part(b, i1, l_sub(), x2);
    assert(l_action() =~= seq![34u8] + l_action().skip(1));
    assert(x2 == e2 + seq![34u8] + t_sub(c)) by {
        lemma_assoc3(seq![34u8], l_action().skip(1), x3);
        lemma_assoc3(e2, seq![34u8], t_sub(c));
        assert(t_sub(c) == l_action().skip(1) + x3);
    }
    lemma_skip_part(b, i1 + 9, e2, l_action() + x3);
}

/// Second half of the payload split: from the action field to the end.
#[verifier::rlimit(100)]
proof fn lemma_json_tail(b: Seq<u8>, c: ClaimsV, i2: int)
    requires
        0 <= i2 <= b.len(),
        b.skip(i2) == l_action() + (encode_utf8(c.action) + (l_iat() + (rfc3339_bytes(c.iat)
            + (l_exp() + (rfc3339_bytes(c.exp) + l_end()))))),
    ensures
        ({
            let s3 = encode_utf8(c.action);
            let i3 = i2 + 12 + s3.len() as int;
            &&& b.subrange(i2, i2 + 12) == l_action()
            &&& b.skip(i2 + 12) == s3 + seq![34u8] + t_action(c)
            &&& b.subrange(i3, i3 + 9) == l_iat()
            &&& b.subrange(i3 + 9, i3 + 29) == rfc3339_bytes(c.iat)
            &&& b.subrange(i3 + 29, i3 + 38) == l_exp()
            &&& b.subrange(i3 + 38, i3 + 58) == rfc3339_bytes(c.exp)
            &&& b.subrange(i3 + 58, i3 + 60) == l_end()
            &&& b.len() == i3 + 60
        }),
{
    let s3 = encode_utf8(c.action);
    let ri = rfc3339_bytes(c.iat);
    let re = rfc3339_bytes(c.exp);
    assert(ri.len() == 20);
    assert(re.len() == 20);
    let i3 = i2 + 12 + s3.len() as int;
    let x5 = re + l_end();
    let x4 = ri + (l_exp() + x5);
    let x3 = s3 + (l_iat() + x4);
    lemma_skip_part(b, i2, l_action(), x3);
    assert(l_iat() =~= seq![34u8] + l_iat().skip(1));
    assert(x3 =~= s3 + seq![34u8] + t_action(c));
    lemma_skip_part(b, i2 + 12, s3, l_iat() + x4);
    lemma_skip_part(b, i3, l_iat(), x4);
    lemma_skip_part(b, i3 + 9, ri, l_exp() + x5);
    lemma_skip_part(b, i3 + 29, l_exp(), x5);
    lemma_skip_part(b, i3 + 38, re, l_end());
    assert(b.skip(i3 + 58).len() == 2);
    assert(b.subrange(i3 + 58, i3 + 60) =~= b.skip(i3 + 58));
}

/// How the canonical payload of `c` splits into its eleven segments.
#[verifier::rlimit(100)]
proof fn lemma_json_decompose(b: Seq<u8>, c: ClaimsV)
    requires
        b == json_of(c),
    ensures
        ({
            let s1 = encode_utf8(c.jti);
            let e2 = esc(encode_utf8(c.sub));
            let s3 = encode_utf8(c.action);
            let i1 = 8 + s1.len() as int;
            let i2 = i1 + 9 + e2.len() as int;
            let i3 = i2 + 12 + s3.len() as int;
            &&& rfc3339_bytes(c.iat).len() == 20
            &&& rfc3339_bytes(c.exp).len() == 20
            &&& b.len() == i3 + 60
            &&& b.subrange(0, 8) == l_jti()
            &&& b.skip(8) == s1 + seq![34u8] + t_jti(c)
            &&& b.subrange(i1, i1 + 9) == l_sub()
            &&& b.skip(i1 + 9) == e2 + seq![34u8] + t_sub(c)
            &&& b.subrange(i2, i2 + 12) == l_action()
            &&& b.skip(i2 + 12) == s3 + seq![34u8] + t_action(c)
            &&& b.subrange(i3, i3 + 9) == l_iat()
            &&& b.subrange(i3 + 9, i3 + 29) == rfc3339_bytes(c.iat)
            &&& b.subrange(i3 + 29, i3 + 38) == l_exp()
            &&& b.subrange(i3 + 38, i3 + 58) == rfc3339_bytes(c.exp)
            &&& b.subrange(i3 + 58, i3 + 60) == l_end()
        }),
{
    let s1 = encode_utf8(c.jti);
    let e2 = esc(encode_utf8(c.sub));
    assert(rfc3339_bytes(c.iat).len() == 20);
    assert(rfc3339_bytes(c.exp).len() == 20);
    let i1 = 8 + s1.len() as int;
    let i2 = i1 + 9 + e2.len() as int;
    lemma_json_head(b, c);
    assert(b.skip(8).len() == b.len() - 8);
    lemma_json_tail(b, c, i2);
}

/// Compare `lit` against `b` at position `i`.
fn match_lit(b: &[u8], i: usize, lit: &[u8]) -> (r: bool)
    requires
        i <= b@.len(),
    ensures
        r <==> (i + lit@.len() <= b@.len() && b@.subrange(
            i as int,
            i as int + lit@.len() as int,
        ) == lit@),
{
    let n = lit.len();
    if b.len() - i < n {
        return false;
    }
    let mut k: usize = 0;
    while k < n
        invariant
            i + n <= b@.len(),
            b@.len() <= usize::MAX,
            k <= n,
            n == lit@.len(),
            forall|t: int| 0 <= t < k ==> b@[i as int + t] == lit@[t],
        decreases n - k,
    {
        if b[i + k] != lit[k] {
            proof {
                assert(b@.subrange(i as int, i as int + n as int)[k as int] == b@[i as int
                    + k as int]);
            }
            return false;
        }
        k = k + 1;
    }
    proof {
        assert(b@.subrange(i as int, i as int + n as int) =~= lit@);
    }
    true
}

/// Scan an unescaped field (token id or action) up to its closing quote.
fn scan_field(b: &[u8], i: usize, jti_mode: bool) -> (r: Option<(Vec<u8>, usize)>)
    requires
        i <= b@.len(),
    ensures
        r is Some ==> ({
            let u = r.unwrap().0;
            let j = r.unwrap().1;
            &&& i <= j < b@.len()
            &&& b@.subrange(i as int, j as int) == u@
            &&& b@[j as int] == 34
            &&& forall|k: int| 0 <= k < u@.len() ==> field_byte(#[trigger] u@[k], jti_mode)
        }),
        forall|content: Seq<u8>, tail: Seq<u8>|
            (b@.skip(i as int) == content + seq![34u8] + tail && (forall|k: int|
                0 <= k < content.len() ==> field_byte(#[trigger] content[k], jti_mode))) ==> (
            r is Some && r.unwrap().0@ == content && r.unwrap().1 == i + content.len()),
{
    let mut j: usize = i;
    let mut out: Vec<u8> = Vec::new();
    loop
        invariant
            i <= j <= b@.len(),
            b@.subrange(i as int, j as int) == out@,
            forall|k: int| 0 <= k < out@.len() ==> field_byte(#[trigger] out@[k], jti_mode),
        ensures
            i <= j < b@.len(),
            b@[j as int] == 34,
            b@.subrange(i as int, j as int) == out@,
            forall|k: int| 0 <= k < out@.len() ==> field_byte(#[trigger] out@[k], jti_mode),
        decreases b@.len() - j,
    {
        if j == b.len() {
            proof {
                assert forall|content: Seq<u8>, tail: Seq<u8>|
                    !(b@.skip(i as int) == content + seq![34u8] + tail && (forall|k: int|
                        0 <= k < content.len() ==> field_byte(#[trigger] content[k], jti_mode)))
                by {
                    if b@.skip(i as int) == content + seq![34u8] + tail && (forall|k: int|
                        0 <= k < content.len() ==> field_byte(#[trigger] content[k], jti_mode)) {
                        let cl = content.len() as int;
                        assert(b@.skip(i as int).len() == cl + 1 + tail.len());
                        assert(b@.skip(i as int)[cl] == (content + seq![34u8] + tail)[cl]);
                        assert(b@[i as int + cl] == 34);
                        assert(out@[cl] == b@.subrange(i as int, j as int)[cl]);
                        assert(field_byte(34u8, jti_mode) == false);
                        assert(false);
                    }
                }
            }
            return None;
        }
        let x = b[j];
        if x == 34 {
            break ;
        }
        let ok = if jti_mode {
            (48 <= x && x <= 57) || (97 <= x && x <= 102) || x == 45
        } else {
            (65 <= x && x <= 90) || (97 <= x && x <= 122) || (48 <= x && x <= 57) || x == 95 || x
                == 58 || x == 45
        };
        if !ok {
            proof {
                assert forall|content: Seq<u8>, tail: Seq<u8>|
                    !(b@.skip(i as int) == content + seq![34u8] + tail && (forall|k: int|
                        0 <= k < content.len() ==> field_byte(#[trigger] content[k], jti_mode)))
                by {
                    if b@.skip(i as int) == content + seq![34u8] + tail && (forall|k: int|
                        0 <= k < content.len() ==> field_byte(#[trigger] content[k], jti_mode)) {
                        let cl = content.len() as int;
                        let d = j - i;
                        if d < cl {
                            assert(b@.skip(i as int)[d] == (content + seq![34u8] + tail)[d]);
                            assert(content[d] == b@[j as int]);
                            assert(field_byte(b@[j as int], jti_mode));
                            assert(false);
                        } else if d == cl {
                            assert(b@.skip(i as int)[cl] == (content + seq![34u8] + tail)[cl]);
                            assert(b@[j as int] == 34);
                            assert(false);
                        } else {
                            assert(b@.skip(i as int)[cl] == (content + seq![34u8] + tail)[cl]);
                            assert(b@[i as int + cl] == 34);
                            assert(out@[cl] == b@.subrange(i as int, j as int)[cl]);
                            assert(field_byte(34u8, jti_mode) == false);
                            assert(false);
                        }
                    }
                }
            }
            return None;
        }
        out.push(x);
        proof {
            assert(b@.subrange(i as int, j as int + 1) =~= b@.subrange(i as int, j as int)
                + seq![b@[j as int]]);
        }
        j = j + 1;
    }
    proof {
        assert forall|content: Seq<u8>, tail: Seq<u8>|
            (b@.skip(i as int) == content + seq![34u8] + tail && (forall|k: int|
                0 <= k < content.len() ==> field_byte(#[trigger] content[k], jti_mode))) implies (
            out@ == content && j == i + content.len()) by {
            let cl = content.len() as int;
            let d = j - i;
            if d < cl {
                assert(b@.skip(i as int)[d] == (content + seq![34u8] + tail)[d]);
                assert(content[d] == b@[j as int]);
                assert(field_byte(34u8, jti_mode) == false);
                assert(false);
            }
            if d > cl {
                assert(b@.skip(i as int)[cl] == (content + seq![34u8] + tail)[cl]);
                assert(b@[i as int + cl] == 34);
                assert(out@[cl] == b@.subrange(i as int, j as int)[cl]);
                assert(field_byte(34u8, jti_mode) == false);
                assert(false);
            }
            assert(out@ =~= content) by {
                assert forall|k: int| 0 <= k < cl implies out@[k] == content[k] by {
                    assert(out@[k] == b@.subrange(i as int, j as int)[k]);
                    assert(b@.skip(i as int)[k] == (content + seq![34u8] + tail)[k]);
                }
            }
        }
    }
    Some((out, j))
}

/// Scan the escaped subject field up to its closing quote, undoing the
/// escapes.
fn scan_sub(b: &[u8], i: usize) -> (r: Option<(Vec<u8>, usize)>)
    requires
        i <= b@.len(),
    ensures
        r is Some ==> ({
            let u = r.unwrap().0;
            let j = r.unwrap().1;
            &&& i <= j < b@.len()
            &&& b@.subrange(i as int, j as int) == esc(u@)
            &&& b@[j as int] == 34
        }),
        forall|content: Seq<u8>, tail: Seq<u8>|
            b@.skip(i as int) == esc(content) + seq![34u8] + tail ==> (r is Some
                && r.unwrap().0@ == content && r.unwrap().1 == i + esc(content).len()),
{
    let mut j: usize = i;
    let mut out: Vec<u8> = Vec::new();
    loop
        invariant
            i <= j <= b@.len(),
            b@.subrange(i as int, j as int) == esc(out@),
        ensures
            i <= j < b@.len(),
            b@[j as int] == 34,
            b@.subrange(i as int, j as int) == esc(out@),
        decreases b@.len() - j,
    {
        proof {
            assert(b@.skip(i as int) =~= esc(out@) + b@.skip(j as int));
        }
        if j == b.len() {
            proof {
                assert forall|content: Seq<u8>, tail: Seq<u8>|
                    b@.skip(i as int) != esc(content) + seq![34u8] + tail by {
                    if b@.skip(i as int) == esc(content) + seq![34u8] + tail {
                        lemma_esc_next(content, out@, b@.skip(j as int), tail);
                        assert(b@.skip(j as int).len() == 0);
                        assert(false);
                    }
                }
            }
            return None;
        }
        let x = b[j];
        proof {
            assert(b@.skip(j as int)[0] == b@[j as int]);
        }
        if x == 34 {
            break ;
        }
        if x == 92 {
            if b.len() - j < 2 {
                proof {
                    assert forall|content: Seq<u8>, tail: Seq<u8>|
                        b@.skip(i as int) != esc(content) + seq![34u8] + tail by {
                        if b@.skip(i as int) == esc(content) + seq![34u8] + tail {
                            lemma_esc_next(content, out@, b@.skip(j as int), tail);
                            assert(b@.skip(j as int).len() >= 2);
                            assert(false);
                        }
                    }
                }
                return None;
            }
            let y = b[j + 1];
            proof {
                assert(b@.skip(j as int)[1] == b@[j as int + 1]);
            }
            if !(y == 34 || y == 92) {
                proof {
                    assert forall|content: Seq<u8>, tail: Seq<u8>|
                        b@.skip(i as int) != esc(content) + seq![34u8] + tail by {
                        if b@.skip(i as int) == esc(content) + seq![34u8] + tail {
                            lemma_esc_next(content, out@, b@.skip(j as int), tail);
                            assert(false);
                        }
                    }
                }
                return None;
            }
            proof {
                lemma_esc_app(out@, seq![b@[j as int + 1]]);
                assert(seq![b@[j as int + 1]].drop_first() =~= Seq::<u8>::empty());
                assert(esc(Seq::<u8>::empty()) =~= Seq::<u8>::empty());
                assert(esc(seq![b@[j as int + 1]]) =~= seq![92u8, b@[j as int + 1]]);
                assert(out@.push(b@[j as int + 1]) =~= out@ + seq![b@[j as int + 1]]);
                assert(b@.subrange(i as int, j as int + 2) =~= b@.subrange(i as int, j as int)
                    + seq![b@[j as int], b@[j as int + 1]]);
                assert(esc(out@.push(b@[j as int + 1])) =~= b@.subrange(i as int, j as int + 2));
            }
            out.push(y);
            j = j + 2;
        } else {
            proof {
                lemma_esc_app(out@, seq![b@[j as int]]);
                assert(seq![b@[j as int]].drop_first() =~= Seq::<u8>::empty());
                assert(esc(Seq::<u8>::empty()) =~= Seq::<u8>::empty());
                assert(esc(seq![b@[j as int]]) =~= seq![b@[j as int]]);
                assert(out@.push(b@[j as int]) =~= out@ + seq![b@[j as int]]);
                assert(b@.subrange(i as int, j as int + 1) =~= b@.subrange(i as int, j as int)
                    + seq![b@[j as int]]);
                assert(esc(out@.push(b@[j as int])) =~= b@.subrange(i as int, j as int + 1));
            }
            out.push(x);
            j = j + 1;
        }
    }
    proof {
        assert(b@.skip(i as int) =~= esc(out@) + b@.skip(j as int));
        assert forall|content: Seq<u8>, tail: Seq<u8>|
            b@.skip(i as int) == esc(content) + seq![34u8] + tail implies (out@ == content && j
            == i + esc(content).len()) by {
            lemma_esc_next(content, out@, b@.skip(j as int), tail);
            assert(b@.skip(j as int)[0] == b@[j as int]);
        }
    }
    Some((out, j))
}

/// Under the hypothesis that `b` encodes the well-formed claim `c`, the two
/// field scanners are guaranteed their charset premise.
proof fn lemma_wf_field_bytes(c: ClaimsV)
    requires
        claims_wf(c),
    ensures
        forall|k: int|
            0 <= k < encode_utf8(c.jti).len() ==> field_byte(
                #[trigger] encode_utf8(c.jti)[k],
                true,
            ),
        forall|k: int|
            0 <= k < encode_utf8(c.action).len() ==> field_byte(
                #[trigger] encode_utf8(c.action)[k],
                false,
            ),
        encode_utf8(c.jti).len() == c.jti.len(),
        encode_utf8(c.action).len() == c.action.len(),
{
    assert forall|i: int| 0 <= i < c.jti.len() implies (#[trigger] c.jti[i] as u32) < 128 by {
        assert(is_jti_char(c.jti[i]));
    }
    lemma_code_ascii(c.jti);
    lemma_encode_ascii(c.jti);
    assert forall|i: int| 0 <= i < c.action.len() implies (#[trigger] c.action[i] as u32)
        < 128 by {
        assert(is_action_char(c.action[i]));
    }
    lemma_code_ascii(c.action);
    lemma_encode_ascii(c.action);
    assert forall|k: int|
        0 <= k < encode_utf8(c.jti).len() implies field_byte(
        #[trigger] encode_utf8(c.jti)[k],
        true,
    ) by {
        assert(encode_utf8(c.jti)[k] == ascii_bytes(c.jti)[k]);
        assert(ascii_bytes(c.jti)[k] == c.jti[k] as u8);
        assert(is_jti_char(c.jti[k]));
    }
    assert forall|k: int|
        0 <= k < encode_utf8(c.action).len() implies field_byte(
        #[trigger] encode_utf8(c.action)[k],
        false,
    ) by {
        assert(encode_utf8(c.action)[k] == ascii_bytes(c.action)[k]);
        assert(ascii_bytes(c.action)[k] == c.action[k] as u8);
        assert(is_action_char(c.action[k]));
    }
}

/// Parse the token id and subject fields: the object opener through the
/// subject's closing quote. On success the returned position is the start of
/// the `action` key.
#[verifier::rlimit(100)]
fn parse_ids(b: &[u8]) -> (r: Option<(Vec<u8>, Vec<u8>, usize)>)
    ensures
        r is Some ==> ({
            let jb = r.unwrap().0@;
            let sb = r.unwrap().1@;
            let i2 = r.unwrap().2 as int;
            &&& i2 == 17 + jb.len() + esc(sb).len()
            &&& i2 < b@.len()
            &&& b@.subrange(0, 8) == l_jti()
            &&& b@.subrange(8, 8 + jb.len() as int) == jb
            &&& b@.subrange(8 + jb.len() as int, 17 + jb.len() as int) == l_sub()
            &&& b@.subrange(17 + jb.len() as int, i2) == esc(sb)
        }),
        forall|c: ClaimsV|
            claims_wf(c) && b@ == json_of(c) ==> r is Some && r.unwrap().0@ == encode_utf8(c.jti)
                && r.unwrap().1@ == encode_utf8(c.sub),
{
    let n = b.len();
    proof {
        assert(n == b@.len());
    }
    let l1 = lit_jti();
    if !match_lit(b, 0, l1.as_slice()) {
        proof {
            assert forall|c: ClaimsV| claims_wf(c) && b@ == json_of(c) implies false by {
                lemma_json_decompose(b@, c);
                assert(b@.skip(0) =~= b@);
            }
        }
        return None;
    }
    let jres = scan_field(b, 8, true);
    if jres.is_none() {
        proof {
            assert forall|c: ClaimsV| claims_wf(c) && b@ == json_of(c) implies false by {
                lemma_json_decompose(b@, c);
                lemma_wf_field_bytes(c);
            }
        }
        return None;
    }
    let (jb, i1) = jres.unwrap();
    let l2 = lit_sub();
    if !match_lit(b, i1, l2.as_slice()) {
        proof {
            assert forall|c: ClaimsV| claims_wf(c) && b@ == json_of(c) implies false by {
                lemma_json_decompose(b@, c);
                lemma_wf_field_bytes(c);
            }
        }
        return None;
    }
    let sres = scan_sub(b, i1 + 9);
    if sres.is_none() {
        proof {
            assert forall|c: ClaimsV| claims_wf(c) && b@ == json_of(c) implies false by {
                lemma_json_decompose(b@, c);
                lemma_wf_field_bytes(c);
            }
        }
        return None;
    }
    let (sb, i2) = sres.unwrap();
    proof {
        assert forall|c: ClaimsV| claims_wf(c) && b@ == json_of(c) implies jb@ == encode_utf8(
            c.jti,
        ) && sb@ == encode_utf8(c.sub) by {
            lemma_json_decompose(b@, c);
            lemma_wf_field_bytes(c);
        }
    }
    Some((jb, sb, i2))
}

/// Position of the `action` key in the canonical payload of `c`.
pub open spec fn act_pos(c: ClaimsV) -> int {
    17 + encode_utf8(c.jti).len() as int + esc(encode_utf8(c.sub)).len() as int
}

/// Position of the `iat` key in the canonical payload of `c`.
pub open spec fn iat_key_pos(c: ClaimsV) -> int {
    act_pos(c) + 12 + encode_utf8(c.action).len() as int
}

/// Parse the action field, starting at the position of the `action` key. On
/// success the returned position is the start of the `iat` key.
#[verifier::rlimit(100)]
fn parse_action(b: &[u8], i2: usize) -> (r: Option<(Vec<u8>, usize)>)
    requires
        i2 <= b@.len(),
    ensures
        r is Some ==> ({
            let ab = r.unwrap().0@;
            let i3 = r.unwrap().1 as int;
            &&& i3 == i2 + 12 + ab.len()
            &&& i3 < b@.len()
            &&& b@.subrange(i2 as int, i2 + 12) == l_action()
            &&& b@.subrange(i2 + 12, i3) == ab
        }),
        forall|c: ClaimsV|
            claims_wf(c) && b@ == json_of(c) && i2 == act_pos(c) ==> r is Some && r.unwrap().0@
                == encode_utf8(c.action),
{
    let n = b.len();
    proof {
        assert(n == b@.len());
    }
    let l3 = lit_action();
    if !match_lit(b, i2, l3.as_slice()) {
        proof {
            assert forall|c: ClaimsV|
                !(claims_wf(c) && b@ == json_of(c) && i2 == act_pos(c)) by {
                if claims_wf(c) && b@ == json_of(c) {
                    lemma_json_decompose(b@, c);
                }
            }
        }
        return None;
    }
    let ares = scan_field(b, i2 + 12, false);
    if ares.is_none() {
        proof {
            assert forall|c: ClaimsV|
                !(claims_wf(c) && b@ == json_of(c) && i2 == act_pos(c)) by {
                if claims_wf(c) && b@ == json_of(c) {
                    lemma_json_decompose(b@, c);
                    lemma_wf_field_bytes(c);
                }
            }
        }
        return None;
    }
    let (ab, i3) = ares.unwrap();
    proof {
        assert forall|c: ClaimsV|
            claims_wf(c) && b@ == json_of(c) && i2 == act_pos(c) implies ab@ == encode_utf8(
            c.action,
        ) by {
            lemma_json_decompose(b@, c);
            lemma_wf_field_bytes(c);
        }
    }
    Some((ab, i3))
}

/// Parse both timestamps and the object closer, starting at the position of
/// the `iat` key.
#[verifier::rlimit(100)]
fn parse_times(b: &[u8], i3: usize) -> (r: Option<(i64, i64)>)
    requires
        i3 <= b@.len(),
    ensures
        r is Some ==> ({
            let iat = r.unwrap().0;
            let exp = r.unwrap().1;
            &&& 0 <= iat <= MAX_UNIX_TS
            &&& 0 <= exp <= MAX_UNIX_TS
            &&& b@.subrange(i3 as int, i3 + 9) == l_iat()
            &&& b@.subrange(i3 + 9, i3 + 29) == rfc3339_bytes(iat as int)
            &&& b@.subrange(i3 + 29, i3 + 38) == l_exp()
            &&& b@.subrange(i3 + 38, i3 + 58) == rfc3339_bytes(exp as int)
            &&& b@.subrange(i3 + 58, i3 + 60) == l_end()
            &&& b@.len() == i3 + 60
        }),
        forall|c: ClaimsV|
            claims_wf(c) && b@ == json_of(c) && i3 == iat_key_pos(c) ==> r is Some
                && r.unwrap().0 == c.iat && r.unwrap().1 == c.exp,
{
    let n = b.len();
    proof {
        assert(n == b@.len());
    }
    let l4 = lit_iat();
    if !match_lit(b, i3, l4.as_slice()) {
        proof {
            assert forall|c: ClaimsV|
                !(claims_wf(c) && b@ == json_of(c) && i3 == iat_key_pos(c)) by {
                if claims_wf(c) && b@ == json_of(c) {
                    lemma_json_decompose(b@, c);
                }
            }
        }
        return None;
    }
    let p_iat = i3 + 9;
    if n - p_iat < 20 {
        proof {
            assert forall|c: ClaimsV|
                !(claims_wf(c) && b@ == json_of(c) && i3 == iat_key_pos(c)) by {
                if claims_wf(c) && b@ == json_of(c) {
                    lemma_json_decompose(b@, c);
                }
            }
        }
        return None;
    }
    let iat_res = parse_rfc3339(&b[p_iat..p_iat + 20]);
    if iat_res.is_none() {
        proof {
            assert forall|c: ClaimsV|
                !(claims_wf(c) && b@ == json_of(c) && i3 == iat_key_pos(c)) by {
                if claims_wf(c) && b@ == json_of(c) {
                    lemma_json_decompose(b@, c);
                }
            }
        }
        return None;
    }
    let iat = iat_res.unwrap();
    let l5 = lit_exp();
    if !match_lit(b, p_iat + 20, l5.as_slice()) {
        proof {
            assert forall|c: ClaimsV|
                !(claims_wf(c) && b@ == json_of(c) && i3 == iat_key_pos(c)) by {
                if claims_wf(c) && b@ == json_of(c) {
                    lemma_json_decompose(b@, c);
                }
            }
        }
        return None;
    }
    let p_exp = p_iat + 29;
    if n - p_exp < 20 {
        proof {
            assert forall|c: ClaimsV|
                !(claims_wf(c) && b@ == json_of(c) && i3 == iat_key_pos(c)) by {
                if claims_wf(c) && b@ == json_of(c) {
                    lemma_json_decompose(b@, c);
                }
            }
        }
        return None;
    }
    let exp_res = parse_rfc3339(&b[p_exp..p_exp + 20]);
    if exp_res.is_none() {
        proof {
            assert forall|c: ClaimsV|
                !(claims_wf(c) && b@ == json_of(c) && i3 == iat_key_pos(c)) by {
                if claims_wf(c) && b@ == json_of(c) {
                    lemma_json_decompose(b@, c);
                }
            }
        }
        return None;
    }
    let exp = exp_res.unwrap();
    let l6 = lit_end();
    if !match_lit(b, p_exp + 20, l6.as_slice()) {
        proof {
            assert forall|c: ClaimsV|
                !(claims_wf(c) && b@ == json_of(c) && i3 == iat_key_pos(c)) by {
                if claims_wf(c) && b@ == json_of(c) {
                    lemma_json_decompose(b@, c);
                }
            }
        }
        return None;
    }
    if p_exp + 22 != n {
        proof {
            assert forall|c: ClaimsV|
                !(claims_wf(c) && b@ == json_of(c) && i3 == iat_key_pos(c)) by {
                if claims_wf(c) && b@ == json_of(c) {
                    lemma_json_decompose(b@, c);
                }
            }
        }
        return None;
    }
    proof {
        assert forall|c: ClaimsV|
            claims_wf(c) && b@ == json_of(c) && i3 == iat_key_pos(c) implies iat == c.iat && exp
            == c.exp by {
            lemma_json_decompose(b@, c);
        }
    }
    Some((iat, exp))
}

/// Parse the canonical payload. A byte sequence is accepted exactly when it
/// is the canonical encoding of a claim, and then yields that claim.
#[verifier::rlimit(100)]
pub fn parse_claims(b: &[u8]) -> (r: Option<Claims>)
    ensures
        r is Some ==> b@ == json_of(r.unwrap()@) && 0 <= r.unwrap()@.iat <= MAX_UNIX_TS && 0
            <= r.unwrap()@.exp <= MAX_UNIX_TS,
        forall|c: ClaimsV| claims_wf(c) && b@ == json_of(c) ==> r is Some && r.unwrap()@ == c,
{
    let ids = parse_ids(b);
    if ids.is_none() {
        return None;
    }
    let (jb, sb, i2) = ids.unwrap();
    let act = parse_action(b, i2);
    if act.is_none() {
        return None;
    }
    let (ab, i3x) = act.unwrap();
    let times = parse_times(b, i3x);
    if times.is_none() {
        return None;
    }
    let (iat, exp) = times.unwrap();
    let ghost i1: int = 8 + jb@.len() as int;
    let ghost i3: int = i2 as int + 12 + ab@.len() as int;
    let ghost p_iat: int = i3 + 9;
    let ghost p_exp: int = p_iat + 29;
    let jti_s = string_from_utf8(jb);
    if jti_s.is_none() {
        proof {
            assert forall|c: ClaimsV| claims_wf(c) && b@ == json_of(c) implies false by {
                encode_utf8_valid_utf8(c.jti);
            }
        }
        return None;
    }
    let sub_s = string_from_utf8(sb);
    if sub_s.is_none() {
        proof {
            assert forall|c: ClaimsV| claims_wf(c) && b@ == json_of(c) implies false by {
                encode_utf8_valid_utf8(c.sub);
            }
        }
        return None;
    }
    let act_s = string_from_utf8(ab);
    if act_s.is_none() {
        proof {
            assert forall|c: ClaimsV| claims_wf(c) && b@ == json_of(c) implies false by {
                encode_utf8_valid_utf8(c.action);
            }
        }
        return None;
    }
    let res = Claims {
        jti: jti_s.unwrap(),
        sub: sub_s.unwrap(),
        action: act_s.unwrap(),
        iat,
        exp,
    };
    proof {
        let bb = b@;
        decode_utf8_encode_utf8(jb@);
        decode_utf8_encode_utf8(sb@);
        decode_utf8_encode_utf8(ab@);
        assert(encode_utf8(res.jti@) == jb@);
        assert(encode_utf8(res.sub@) == sb@);
        assert(encode_utf8(res.action@) == ab@);
        lemma_join(bb, 0, 8, i1);
        lemma_join(bb, 0, i1, i1 + 9);
        lemma_join(bb, 0, i1 + 9, i2 as int);
        lemma_join(bb, 0, i2 as int, i2 as int + 12);
        lemma_join(bb, 0, i2 as int + 12, i3);
        lemma_join(bb, 0, i3, i3 + 9);
        lemma_join(bb, 0, i3 + 9, p_iat + 20);
        lemma_join(bb, 0, p_iat + 20, p_exp);
        lemma_join(bb, 0, p_exp, p_exp + 20);
        lemma_join(bb, 0, p_exp + 20, p_exp + 22);
        assert(bb =~= bb.subrange(0, p_exp + 22));
        assert(bb == json_of(res@));
        assert forall|c: ClaimsV| claims_wf(c) && bb == json_of(c) implies res@ == c by {
            encode_utf8_decode_utf8(c.jti);
            encode_utf8_decode_utf8(c.sub);
            encode_utf8_decode_utf8(c.action);
            assert(res@ =~= c);
        }
    }
    Some(res)
}

} // verus!
