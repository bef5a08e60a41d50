//! Bridging characters and bytes for the ASCII fragments of the wire format,
//! on top of vstd's UTF-8 theory.

use vstd::prelude::*;
use vstd::utf8::*;
use vstd::string::StringSliceAdditionalSpecFns;

verus! {

/// The bytes of an all-ASCII character sequence: one byte per character.
pub open spec fn ascii_bytes(s: Seq<char>) -> Seq<u8> {
    Seq::new(s.len(), |i: int| s[i] as u8)
}

pub open spec fn low_bytes(b: Seq<u8>) -> bool {
    forall|i: int| 0 <= i < b.len() ==> #[trigger] b[i] < 128
}

/// UTF-8 encoding of ASCII text is the identity on character codes.
pub proof fn lemma_encode_ascii(s: Seq<char>)
    requires
        is_ascii_chars(s),
    ensures
        encode_utf8(s) == ascii_bytes(s),
        low_bytes(ascii_bytes(s)),
{
    is_ascii_chars_encode_utf8(s);
    assert(encode_utf8(s) =~= ascii_bytes(s));
}

/// Text whose UTF-8 encoding stays below 128 is ASCII: any wider scalar would
/// put a leading byte of 0xC0 or above into the encoding.
pub proof fn lemma_low_bytes_ascii(s: Seq<char>)
    requires
        low_bytes(encode_utf8(s)),
    ensures
        is_ascii_chars(s),
    decreases s.len(),
{
    if s.len() > 0 {
        let v = s[0] as u32;
        char_is_scalar(s[0]);
        if !has_width_1_encoding(v) {
            assert(encode_utf8(s)[0] >= 128) by {
                assert(0xC0u8 | (((v >> 6) & 0x1F) as u8) >= 128) by (bit_vector);
                assert(0xE0u8 | (((v >> 12) & 0x0F) as u8) >= 128) by (bit_vector);
                assert(0xF0u8 | (((v >> 18) & 0x7) as u8) >= 128) by (bit_vector);
            }
            assert(false);
        }
        assert(encode_utf8(s.drop_first()) =~= encode_utf8(s).drop_first());
        lemma_low_bytes_ascii(s.drop_first());
        assert forall|i| 0 <= i < s.len() implies '\0' <= #[trigger] s[i] <= '\u{7f}' by {
            if i > 0 {
                assert(s.drop_first()[i - 1] == s[i]);
            } else {
                assert(s[0] as u32 <= 0x7f);
                assert('\u{7f}' as u32 == 0x7f);
                assert('\0' as u32 == 0);
                char_u32_cast(s[0], s[0] as u32);
                assert(s[0] <= '\u{7f}');
            }
        }
    }
}

/// Characters whose codes stay below 128 form an ASCII sequence.
pub proof fn lemma_code_ascii(s: Seq<char>)
    requires
        forall|i: int| 0 <= i < s.len() ==> (#[trigger] s[i] as u32) < 128,
    ensures
        is_ascii_chars(s),
{
    assert forall|i| 0 <= i < s.len() implies '\0' <= #[trigger] s[i] <= '\u{7f}' by {
        assert('\u{7f}' as u32 == 0x7f);
        assert('\0' as u32 == 0);
        char_u32_cast(s[i], s[i] as u32);
    }
}

/// Append the UTF-8 bytes of `s` to `v`.
pub fn push_str_bytes(v: &mut Vec<u8>, s: &str)
    ensures
        final(v)@ == old(v)@ + s.spec_bytes(),
{
    let bs = s.as_bytes();
    let n = bs.len();
    let mut i: usize = 0;
    while i < n
        invariant
            n == bs@.len(),
            i <= n,
            bs@ == s.spec_bytes(),
            v@ == old(v)@ + bs@.subrange(0, i as int),
        decreases n - i,
    {
        v.push(bs[i]);
        proof {
            assert(old(v)@ + bs@.subrange(0, i as int) + seq![bs@[i as int]] =~= old(v)@
                + bs@.subrange(0, i as int + 1));
        }
        i = i + 1;
    }
    proof {
        assert(bs@.subrange(0, n as int) =~= bs@);
    }
}

/// Append the contents of `b` to `v`.
pub fn push_bytes(v: &mut Vec<u8>, b: &[u8])
    ensures
        final(v)@ == old(v)@ + b@,
{
    let n = b.len();
    let mut i: usize = 0;
    while i < n
        invariant
            n == b@.len(),
            i <= n,
            v@ == old(v)@ + b@.subrange(0, i as int),
        decreases n - i,
    {
        v.push(b[i]);
        proof {
            assert(old(v)@ + b@.subrange(0, i as int) + seq![b@[i as int]] =~= old(v)@
                + b@.subrange(0, i as int + 1));
        }
        i = i + 1;
    }
    proof {
        assert(b@.subrange(0, n as int) =~= b@);
    }
}

/// Relies on String::from_utf8: it succeeds exactly on valid UTF-8 input and
/// returns the string with that encoding.
#[verifier::external_body]
pub fn string_from_utf8(v: Vec<u8>) -> (r: Option<String>)
    ensures
        valid_utf8(v@) ==> r is Some && r.unwrap()@ == decode_utf8(v@),
        !valid_utf8(v@) ==> r is None,
{
    String::from_utf8(v).ok()
}

/// Bytes below 128 form valid UTF-8: each is a one-byte scalar.
pub proof fn lemma_low_bytes_valid(b: Seq<u8>)
    requires
        low_bytes(b),
    ensures
        valid_utf8(b),
    decreases b.len(),
{
    if b.len() > 0 {
        let b0 = b[0];
        assert(is_leading_byte_width_1(b0)) by {
            assert(b0 < 128 ==> b0 & 0x80 == 0) by (bit_vector);
        }
        assert(decode_first_codepoint(b) == codepoint_width_1(b0));
        assert(codepoint_width_1(b0) < 0x80) by {
            assert((b0 & 0x7F) as u32 <= 0x7F) by (bit_vector);
        }
        assert(valid_first_scalar(b));
        assert(length_of_first_scalar(b) == 1);
        assert(pop_first_scalar(b) =~= b.drop_first());
        assert(low_bytes(b.drop_first())) by {
            assert forall|i: int| 0 <= i < b.drop_first().len() implies #[trigger] b.drop_first(
            )[i] < 128 by {
                assert(b[i + 1] < 128);
            }
        }
        lemma_low_bytes_valid(b.drop_first());
    }
}

/// Character-for-character equality of two string slices.
pub fn str_eq(a: &str, b: &str) -> (r: bool)
    ensures
        r == (a@ == b@),
{
    let ab = a.as_bytes();
    let bb = b.as_bytes();
    let n = ab.len();
    if bb.len() != n {
        proof {
            encode_utf8_decode_utf8(a@);
            encode_utf8_decode_utf8(b@);
        }
        return false;
    }
    let mut i: usize = 0;
    while i < n
        invariant
            i <= n,
            n == ab@.len() == bb@.len(),
            ab@ == a.spec_bytes(),
            bb@ == b.spec_bytes(),
            forall|k: int| 0 <= k < i ==> ab@[k] == bb@[k],
        decreases n - i,
    {
        if ab[i] != bb[i] {
            proof {
                encode_utf8_decode_utf8(a@);
                encode_utf8_decode_utf8(b@);
            }
            return false;
        }
        i = i + 1;
    }
    proof {
        assert(a.spec_bytes() =~= b.spec_bytes());
        encode_utf8_decode_utf8(a@);
        encode_utf8_decode_utf8(b@);
    }
    true
}

} // verus!
