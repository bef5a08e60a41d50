//! Append-only record of successful redemptions, uniquely keyed by token id,
//! with a most-recent-first query. Subjects and actions are truncated at
//! character boundaries before insertion as defense in depth.

use vstd::prelude::*;
use vstd::utf8::*;
use vstd::string::StringSliceAdditionalSpecFns;
use crate::ascii::{lemma_low_bytes_valid, string_from_utf8};
use crate::error::Error;
use crate::timefmt::{format_rfc3339, lemma_rfc3339_low, rfc3339_bytes, MAX_UNIX_TS};

verus! {

/// Encoding distributes over concatenation.
proof fn lemma_encode_app(a: Seq<char>, b: Seq<char>)
    ensures
        encode_utf8(a + b) == encode_utf8(a) + encode_utf8(b),
    decreases a.len(),
{
    if a.len() == 0 {
        assert(a + b =~= b);
        assert(encode_utf8(a) + encode_utf8(b) =~= encode_utf8(b));
    } else {
        assert((a + b).drop_first() =~= a.drop_first() + b);
        lemma_encode_app(a.drop_first(), b);
        assert(encode_utf8(a + b) =~= encode_utf8(a) + encode_utf8(b));
    }
}

/// The width class of a scalar's encoding is determined by its first byte,
/// and that first byte is never a continuation byte.
pub proof fn lemma_scalar_width(c: char)
    ensures
        ({
            let e = encode_scalar(c as u32);
            &&& 1 <= e.len() <= 4
            &&& (e[0] < 0x80 ==> e.len() == 1)
            &&& (0x80 <= e[0] && e[0] < 0xE0 ==> e.len() == 2)
            &&& (0xE0 <= e[0] && e[0] < 0xF0 ==> e.len() == 3)
            &&& (0xF0 <= e[0] ==> e.len() == 4)
            &&& !is_continuation_byte(e[0])
        }),
{
    char_is_scalar(c);
    let v = c as u32;
    assert(((v & 0x7F) as u8) < 0x80) by (bit_vector);
    assert(0x80 <= (0xC0u8 | (((v >> 6) & 0x1F) as u8)) && (0xC0u8 | (((v >> 6) & 0x1F) as u8))
        < 0xE0 && (0xC0u8 | (((v >> 6) & 0x1F) as u8)) > 0xbf) by (bit_vector);
    assert(0xE0 <= (0xE0u8 | (((v >> 12) & 0x0F) as u8)) && (0xE0u8 | (((v >> 12) & 0x0F) as u8))
        < 0xF0) by (bit_vector);
    assert(0xF0 <= (0xF0u8 | (((v >> 18) & 0x7) as u8))) by (bit_vector);
}

/// Truncate to at most `max` characters, at a character boundary.
#[verifier::rlimit(100)]
pub fn truncate(value: &str, max: usize) -> (r: &str)
    ensures
        r@ == value@.take(if max <= value@.len() {
            max as int
        } else {
            value@.len() as int
        }),
{
    let bytes = value.as_bytes();
    let n = bytes.len();
    let ghost tc = value@;
    proof {
        encode_utf8_valid_utf8(tc);
        assert(tc.take(0) =~= Seq::<char>::empty());
        assert(tc.skip(0) =~= tc);
        assert(encode_utf8(Seq::<char>::empty()) =~= Seq::<u8>::empty());
        assert(bytes@.skip(0) =~= bytes@);
    }
    let mut i: usize = 0;
    let mut k: usize = 0;
    loop
        invariant
            i <= n,
            n == bytes@.len(),
            bytes@ == encode_utf8(tc),
            k <= max,
            k <= tc.len(),
            i == encode_utf8(tc.take(k as int)).len(),
            encode_utf8(tc.skip(k as int)) == bytes@.skip(i as int),
            k < tc.len() ==> i < n,
        ensures
            k == if max <= tc.len() {
                max as int
            } else {
                tc.len() as int
            },
            i <= n,
            i == encode_utf8(tc.take(k as int)).len(),
            encode_utf8(tc.skip(k as int)) == bytes@.skip(i as int),
        decreases n - i,
    {
        if k == max {
            break ;
        }
        if i == n {
            proof {
                assert(encode_utf8(tc.skip(k as int)).len() == 0);
                if k < tc.len() {
                    assert(false);
                }
            }
            break ;
        }
        let ghost c = tc[k as int];
        let ghost rest = tc.skip(k as int);
        proof {
            if k as int == tc.len() {
                assert(rest =~= Seq::<char>::empty());
                assert(encode_utf8(Seq::<char>::empty()) =~= Seq::<u8>::empty());
                assert(bytes@.skip(i as int).len() == 0);
                assert(false);
            }
            assert(rest.len() > 0);
            assert(rest[0] == c);
            char_is_scalar(c);
            assert(encode_utf8(rest) == encode_scalar(c as u32) + encode_utf8(
                rest.drop_first(),
            ));
            assert(rest.drop_first() =~= tc.skip(k as int + 1));
            assert(tc.take(k as int + 1) =~= tc.take(k as int).push(c));
            assert(tc.take(k as int).push(c) =~= tc.take(k as int) + seq![c]);
            lemma_encode_app(tc.take(k as int), seq![c]);
            assert(seq![c].drop_first() =~= Seq::<char>::empty());
            assert(encode_utf8(Seq::<char>::empty()) =~= Seq::<u8>::empty());
            assert(encode_utf8(seq![c]) =~= encode_scalar(c as u32));
        }
        let b0 = bytes[i];
        proof {
            assert(bytes@.skip(i as int)[0] == b0);
            assert(encode_scalar(c as u32)[0] == b0);
        }
        proof {
            lemma_scalar_width(c);
        }
        let w: usize = if b0 < 0x80 {
            1
        } else if b0 < 0xE0 {
            2
        } else if b0 < 0xF0 {
            3
        } else {
            4
        };
        proof {
            assert(w == encode_scalar(c as u32).len());
            assert(encode_utf8(tc.skip(k as int)).len() == encode_scalar(c as u32).len()
                + encode_utf8(tc.skip(k as int + 1)).len());
            assert(encode_utf8(tc.skip(k as int + 1)) =~= bytes@.skip(i as int + w as int)) by {
                let e2 = encode_utf8(tc.skip(k as int + 1));
                assert(encode_utf8(rest) == encode_scalar(c as u32) + e2);
                assert forall|j: int|
                    0 <= j < e2.len() implies e2[j] == bytes@.skip(i as int + w as int)[j] by {
                    assert((encode_scalar(c as u32) + e2)[w + j] == e2[j]);
                    assert(encode_utf8(rest)[w + j] == bytes@.skip(i as int)[w + j]);
                    assert(bytes@.skip(i as int)[w + j] == bytes@[i + w + j]);
                    assert(bytes@.skip(i as int + w as int)[j] == bytes@[i + w + j]);
                }
            }
            assert(encode_utf8(tc.take(k as int + 1)).len() == i + w);
        }
        i = i + w;
        k = k + 1;
    }
    proof {
        assert(is_char_boundary(bytes@, i as int)) by {
            if i as int == bytes@.len() {
                is_char_boundary_start_end_of_seq(bytes@);
            } else {
                is_char_boundary_iff_not_is_continuation_byte(bytes@, i as int);
                let rest = tc.skip(k as int);
                if rest.len() == 0 {
                    assert(rest =~= Seq::<char>::empty());
                    assert(encode_utf8(Seq::<char>::empty()) =~= Seq::<u8>::empty());
                    assert(bytes@.skip(i as int).len() == 0);
                    assert(false);
                }
                assert(rest.len() > 0);
                let c = rest[0];
                assert(bytes@.skip(i as int)[0] == bytes@[i as int]);
                char_is_scalar(c);
                assert(encode_utf8(rest) == encode_scalar(c as u32) + encode_utf8(
                    rest.drop_first(),
                ));
                assert(bytes@[i as int] == encode_scalar(c as u32)[0]);
                lemma_scalar_width(c);
                assert(!is_continuation_byte(bytes@[i as int]));
            }
        }
    }
    let pair = value.split_at(i);
    proof {
        assert(tc.take(k as int) + tc.skip(k as int) =~= tc);
        lemma_encode_app(tc.take(k as int), tc.skip(k as int));
        assert(bytes@.subrange(0, i as int) =~= encode_utf8(tc.take(k as int)));
        assert(pair.0.spec_bytes() =~= encode_utf8(tc.take(k as int)));
        encode_utf8_decode_utf8(pair.0@);
        encode_utf8_decode_utf8(tc.take(k as int));
        assert(pair.0@ == tc.take(k as int));
    }
    pair.0
}

/// One redemption record.
pub struct AuditEntry {
    pub jti: String,
    pub sub: String,
    pub action: String,
    pub verified_at: String,
}

/// The model of a record: its four fields as character sequences.
pub type AuditRec = (Seq<char>, Seq<char>, Seq<char>, Seq<char>);

pub open spec fn audit_has_jti(s: Seq<AuditRec>, j: Seq<char>) -> bool {
    exists|i: int| 0 <= i < s.len() && (#[trigger] s[i]).0 == j
}

pub open spec fn audit_distinct(s: Seq<AuditRec>) -> bool {
    forall|i: int, k: int| 0 <= i < k < s.len() ==> (#[trigger] s[i]).0 != (#[trigger] s[k]).0
}

/// The audit log: records in insertion order, token ids unique.
pub struct AuditLog {
    entries: Vec<AuditEntry>,
}

impl AuditLog {
    pub closed spec fn view(&self) -> Seq<AuditRec> {
        self.entries@.map_values(|e: AuditEntry| (e.jti@, e.sub@, e.action@, e.verified_at@))
    }

    pub closed spec fn wf(&self) -> bool {
        audit_distinct(self.view())
    }

    /// An empty log.
    pub fn new() -> (r: AuditLog)
        ensures
            r.wf(),
            r.view() == Seq::<AuditRec>::empty(),
    {
        let r = AuditLog { entries: Vec::new() };
        proof {
            assert(r.view() =~= Seq::<AuditRec>::empty());
        }
        r
    }

    fn holds_jti(&self, jti: &str) -> (r: bool)
        ensures
            r == audit_has_jti(self.view(), jti@),
    {
        let n = self.entries.len();
        let mut i: usize = 0;
        while i < n
            invariant
                i <= n,
                n == self.view().len(),
                forall|k: int| 0 <= k < i ==> (#[trigger] self.view()[k]).0 != jti@,
            decreases n - i,
        {
            if crate::ascii::str_eq(self.entries[i].jti.as_str(), jti) {
                proof {
                    assert(self.view()[i as int].0 == jti@);
                }
                return true;
            }
            i = i + 1;
        }
        proof {
            if audit_has_jti(self.view(), jti@) {
                let k = choose|k: int|
                    0 <= k < self.view().len() && (#[trigger] self.view()[k]).0 == jti@;
                assert(false);
            }
        }
        false
    }

    /// Append a redemption record. The subject is truncated to 256
    /// characters and the action to 64; a reused token id is refused as a
    /// uniqueness violation. The instant is clamped into the representable
    /// range and stored in RFC 3339 form.
    pub fn log(&mut self, jti: &str, sub: &str, action: &str, verified_at: i64) -> (r: Result<
        (),
        Error,
    >)
        requires
            old(self).wf(),
        ensures
            final(self).wf(),
            r is Ok <==> !audit_has_jti(old(self).view(), jti@),
            r is Err ==> (r matches Err(Error::Database)) && final(self).view() == old(
                self,
            ).view(),
            r is Ok ==> ({
                let ts = if verified_at < 0 {
                    0
                } else if verified_at > MAX_UNIX_TS {
                    MAX_UNIX_TS as int
                } else {
                    verified_at as int
                };
                final(self).view() == old(self).view().push(
                    (
                        jti@,
                        sub@.take(if 256 <= sub@.len() {
                            256int
                        } else {
                            sub@.len() as int
                        }),
                        action@.take(if 64 <= action@.len() {
                            64int
                        } else {
                            action@.len() as int
                        }),
                        decode_utf8(rfc3339_bytes(ts)),
                    ),
                )
            }),
    {
        if self.holds_jti(jti) {
            return Err(Error::Database);
        }
        let sub_t = truncate(sub, 256);
        let action_t = truncate(action, 64);
        let ts: i64 = if verified_at < 0 {
            0
        } else if verified_at > MAX_UNIX_TS {
            MAX_UNIX_TS
        } else {
            verified_at
        };
        let ts_bytes = format_rfc3339(ts);
        proof {
            lemma_rfc3339_low(ts as int);
            lemma_low_bytes_valid(ts_bytes@);
        }
        let ts_s = match string_from_utf8(ts_bytes) {
            Some(s) => s,
            None => {
                return Err(Error::Database);
            },
        };
        let ghost before = self.view();
        let entry = AuditEntry {
            jti: jti.to_owned(),
            sub: sub_t.to_owned(),
            action: action_t.to_owned(),
            verified_at: ts_s,
        };
        self.entries.push(entry);
        proof {
            assert(self.view() =~= before.push(
                (jti@, sub_t@, action_t@, decode_utf8(rfc3339_bytes(ts as int))),
            ));
            assert forall|i: int, k: int|
                0 <= i < k < self.view().len() implies (#[trigger] self.view()[i]).0 != (
            #[trigger] self.view()[k]).0 by {
                if k == self.view().len() - 1 {
                    if self.view()[i].0 == jti@ {
                        assert(before[i].0 == jti@);
                        assert(audit_has_jti(before, jti@));
                    }
                }
            }
        }
        Ok(())
    }

    /// The most recent records, newest first, capped at `limit`. The order
    /// is strictly descending insertion order.
    pub fn recent(&self, limit: usize) -> (r: Vec<AuditEntry>)
        ensures
            r@.len() == if limit <= self.view().len() {
                limit as int
            } else {
                self.view().len() as int
            },
            forall|i: int|
                0 <= i < r@.len() ==> ((#[trigger] r@[i].jti@), r@[i].sub@, r@[i].action@,
                r@[i].verified_at@) == self.view()[self.view().len() - 1 - i],
    {
        let n = self.entries.len();
        let take = if limit <= n {
            limit
        } else {
            n
        };
        let mut out: Vec<AuditEntry> = Vec::new();
        let mut i: usize = 0;
        while i < take
            invariant
                i <= take <= n,
                n == self.view().len(),
                out@.len() == i,
                forall|k: int|
                    0 <= k < i ==> ((#[trigger] out@[k].jti@), out@[k].sub@, out@[k].action@,
                    out@[k].verified_at@) == self.view()[n - 1 - k],
            decreases take - i,
        {
            let e = &self.entries[n - 1 - i];
            let copy = AuditEntry {
                jti: e.jti.clone(),
                sub: e.sub.clone(),
                action: e.action.clone(),
                verified_at: e.verified_at.clone(),
            };
            out.push(copy);
            i = i + 1;
        }
        out
    }

}

} // verus!
