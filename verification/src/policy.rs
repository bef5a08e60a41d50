//! Per-action-type numeric limits. An action string splits on `:`; the
//! leading segment is the action type, and a segment `amount` followed by a
//! decimal segment asserts the requested amount.

use vstd::prelude::*;
use vstd::utf8::*;
use vstd::string::StringSliceAdditionalSpecFns;
use vstd::arithmetic::div_mod::lemma_fundamental_div_mod;

verus! {

/// Position of the first `:` byte in `b`, or `b.len()` if there is none.
pub open spec fn first_colon(b: Seq<u8>) -> int
    decreases b.len(),
{
    if b.len() == 0 {
        0
    } else if b[0] == 58 {
        0
    } else {
        1 + first_colon(b.drop_first())
    }
}

/// The action type: the bytes before the first `:`.
pub open spec fn action_type_of(b: Seq<u8>) -> Seq<u8> {
    b.take(first_colon(b))
}

proof fn lemma_first_colon_bounds(b: Seq<u8>)
    ensures
        0 <= first_colon(b) <= b.len(),
        first_colon(b) < b.len() ==> b[first_colon(b)] == 58,
        forall|k: int| 0 <= k < first_colon(b) ==> b[k] != 58,
    decreases b.len(),
{
    if b.len() > 0 && b[0] != 58 {
        lemma_first_colon_bounds(b.drop_first());
        assert forall|k: int| 0 <= k < first_colon(b) implies b[k] != 58 by {
            if k > 0 {
                assert(b.drop_first()[k - 1] != 58);
            }
        }
    }
}

/// `first_colon` is pinned by its characterization.
proof fn lemma_first_colon_at(b: Seq<u8>, i: int)
    requires
        0 <= i <= b.len(),
        forall|k: int| 0 <= k < i ==> b[k] != 58,
        i < b.len() ==> b[i] == 58,
    ensures
        first_colon(b) == i,
    decreases b.len(),
{
    if b.len() > 0 && b[0] != 58 {
        assert(i > 0);
        assert forall|k: int| 0 <= k < i - 1 implies b.drop_first()[k] != 58 by {
            assert(b[k + 1] != 58);
        }
        lemma_first_colon_at(b.drop_first(), i - 1);
    }
}

/// The bytes of the segment keyword `amount`.
pub open spec fn amount_lit() -> Seq<u8> {
    seq![97u8, 109u8, 111u8, 117u8, 110u8, 116u8]
}

/// Numeric value of a digit string.
pub open spec fn dec_val(b: Seq<u8>) -> int
    decreases b.len(),
{
    if b.len() == 0 {
        0
    } else {
        dec_val(b.drop_last()) * 10 + (b.last() - 48)
    }
}

pub open spec fn all_digits(b: Seq<u8>) -> bool {
    forall|i: int| 0 <= i < b.len() ==> 48 <= #[trigger] b[i] <= 57
}

/// What `amount` segment parsing yields: a value only for a nonempty digit
/// string that fits in a u64.
pub open spec fn parse_dec(b: Seq<u8>) -> Option<int> {
    if b.len() > 0 && all_digits(b) && dec_val(b) <= u64::MAX {
        Some(dec_val(b))
    } else {
        None
    }
}

/// The amount the action's segments assert: at the first segment equal to
/// `amount`, the following segment parsed as a decimal; scanning stops there.
pub open spec fn amount_of(b: Seq<u8>) -> Option<int>
    decreases b.len(),
{
    let c = first_colon(b);
    if b.take(c) == amount_lit() {
        if c == b.len() {
            None
        } else {
            let rest = b.skip(c + 1);
            parse_dec(rest.take(first_colon(rest)))
        }
    } else if 0 <= c && c < b.len() {
        amount_of(b.skip(c + 1))
    } else {
        None
    }
}

/// First-match lookup of an action type among the configured limits.
pub open spec fn lookup(limits: Seq<(Seq<char>, u64)>, key: Seq<u8>) -> Option<u64>
    decreases limits.len(),
{
    if limits.len() == 0 {
        None
    } else if encode_utf8(limits[0].0) == key {
        Some(limits[0].1)
    } else {
        lookup(limits.drop_first(), key)
    }
}

/// The policy decision on the action bytes `b`: pass unless the action's own
/// type carries a limit and the asserted amount exceeds it.
pub open spec fn check_spec(limits: Seq<(Seq<char>, u64)>, b: Seq<u8>) -> bool {
    match lookup(limits, action_type_of(b)) {
        None => true,
        Some(l) => match amount_of(b) {
            None => true,
            Some(a) => a <= l,
        },
    }
}

/// Action-type routing: the decision depends only on the limit registered
/// for the action's own first segment, so policies for any other type can
/// never affect it.
pub proof fn law_action_type_routing(
    l1: Seq<(Seq<char>, u64)>,
    l2: Seq<(Seq<char>, u64)>,
    b: Seq<u8>,
)
    requires
        lookup(l1, action_type_of(b)) == lookup(l2, action_type_of(b)),
    ensures
        check_spec(l1, b) == check_spec(l2, b),
{
}

/// Appending a policy for a type the action does not have leaves the
/// decision unchanged.
pub proof fn law_routing_push(limits: Seq<(Seq<char>, u64)>, x: Seq<char>, l: u64, b: Seq<u8>)
    requires
        action_type_of(b) != encode_utf8(x),
    ensures
        check_spec(limits.push((x, l)), b) == check_spec(limits, b),
{
    lemma_lookup_push(limits, x, l, action_type_of(b));
}

proof fn lemma_lookup_push(limits: Seq<(Seq<char>, u64)>, x: Seq<char>, l: u64, key: Seq<u8>)
    requires
        key != encode_utf8(x),
    ensures
        lookup(limits.push((x, l)), key) == lookup(limits, key),
    decreases limits.len(),
{
    if limits.len() == 0 {
        assert(limits.push((x, l))[0] == (x, l));
        assert(lookup(limits.push((x, l)).drop_first(), key) == lookup(
            Seq::<(Seq<char>, u64)>::empty(),
            key,
        )) by {
            assert(limits.push((x, l)).drop_first() =~= Seq::<(Seq<char>, u64)>::empty());
        }
    } else {
        assert(limits.push((x, l))[0] == limits[0]);
        assert(limits.push((x, l)).drop_first() =~= limits.drop_first().push((x, l)));
        lemma_lookup_push(limits.drop_first(), x, l, key);
    }
}

/// The canonical decimal digits of `a`.
pub open spec fn u64_digits(a: int) -> Seq<u8>
    decreases a,
{
    if a < 0 {
        Seq::empty()
    } else if a < 10 {
        seq![(48 + a) as u8]
    } else {
        u64_digits(a / 10).push((48 + a % 10) as u8)
    }
}

proof fn lemma_u64_digits(a: int)
    requires
        0 <= a,
    ensures
        u64_digits(a).len() >= 1,
        all_digits(u64_digits(a)),
        dec_val(u64_digits(a)) == a,
    decreases a,
{
    if a < 10 {
        assert(u64_digits(a) == seq![(48 + a) as u8]);
        assert(u64_digits(a).drop_last() =~= Seq::<u8>::empty());
        assert(dec_val(u64_digits(a)) == dec_val(Seq::<u8>::empty()) * 10 + ((48 + a) as u8 - 48));
    } else {
        lemma_u64_digits(a / 10);
        lemma_fundamental_div_mod(a, 10);
        assert(0 <= a % 10 < 10);
        assert(u64_digits(a).drop_last() =~= u64_digits(a / 10));
        assert(u64_digits(a).last() == (48 + a % 10) as u8);
        assert(dec_val(u64_digits(a)) == dec_val(u64_digits(a / 10)) * 10 + ((48 + a % 10) as u8
            - 48));
        assert forall|i: int| 0 <= i < u64_digits(a).len() implies 48 <= #[trigger] u64_digits(
            a,
        )[i] <= 57 by {
            if i < u64_digits(a).len() - 1 {
                assert(u64_digits(a / 10)[i] == u64_digits(a)[i]);
            }
        }
    }
}

/// Policy limit: for any registered `(type, limit)` and amount `a`, the
/// action `type:amount:a` passes exactly when `a` is within the limit. The
/// one excluded type is `amount` itself, whose keyword collides with the
/// amount marker.
pub proof fn law_policy_limit(limits: Seq<(Seq<char>, u64)>, t: Seq<u8>, l: u64, a: u64)
    requires
        lookup(limits, t) == Some(l),
        forall|i: int| 0 <= i < t.len() ==> #[trigger] t[i] != 58,
        t != amount_lit(),
    ensures
        check_spec(limits, t + seq![58u8] + amount_lit() + seq![58u8] + u64_digits(a as int))
            == (a <= l),
{
    let digits = u64_digits(a as int);
    lemma_u64_digits(a as int);
    let b = t + seq![58u8] + amount_lit() + seq![58u8] + digits;
    assert(b[t.len() as int] == 58);
    assert forall|k: int| 0 <= k < t.len() implies b[k] != 58 by {
        assert(b[k] == t[k]);
    }
    lemma_first_colon_at(b, t.len() as int);
    assert(action_type_of(b) =~= t);
    let rest1 = b.skip(t.len() as int + 1);
    assert(rest1 =~= amount_lit() + seq![58u8] + digits);
    assert(rest1[amount_lit().len() as int] == 58);
    assert forall|k: int| 0 <= k < amount_lit().len() implies rest1[k] != 58 by {
        assert(rest1[k] == amount_lit()[k]);
    }
    lemma_first_colon_at(rest1, amount_lit().len() as int);
    assert(rest1.take(first_colon(rest1)) =~= amount_lit());
    let rest2 = rest1.skip(amount_lit().len() as int + 1);
    assert(rest2 =~= digits);
    assert forall|k: int| 0 <= k < digits.len() implies rest2[k] != 58 by {
        assert(48 <= digits[k] <= 57);
    }
    lemma_first_colon_at(rest2, digits.len() as int);
    assert(rest2.take(first_colon(rest2)) =~= digits);
    assert(amount_of(rest1) == Some(a as int));
    assert(amount_of(b) == Some(a as int));
    assert(check_spec(limits, b) == (a <= l));
}

/// A per-action-type limit.
pub struct PolicyLimit {
    pub max_amount: u64,
}

/// A denied policy decision: the type, its limit, and the amount asked for.
pub struct Violation {
    pub action_type: String,
    pub limit: u64,
    pub requested: u64,
}

/// The policy engine: action types with their limits; the first entry for a
/// type wins.
pub struct PolicyEngine {
    limits: Vec<(String, PolicyLimit)>,
}

impl PolicyEngine {
    pub closed spec fn view(&self) -> Seq<(Seq<char>, u64)> {
        self.limits@.map_values(|e: (String, PolicyLimit)| (e.0@, e.1.max_amount))
    }

    pub fn new(limits: Vec<(String, PolicyLimit)>) -> (r: PolicyEngine)
        ensures
            r@ == limits@.map_values(|e: (String, PolicyLimit)| (e.0@, e.1.max_amount)),
    {
        PolicyEngine { limits }
    }
}

impl Default for PolicyEngine {
    /// An empty policy: every action passes.
    fn default() -> (r: PolicyEngine)
        ensures
            r@ == Seq::<(Seq<char>, u64)>::empty(),
    {
        let r = PolicyEngine { limits: Vec::new() };
        proof {
            assert(r@ =~= Seq::<(Seq<char>, u64)>::empty());
        }
        r
    }
}

proof fn lemma_dec_val_nonneg(b: Seq<u8>)
    requires
        all_digits(b),
    ensures
        dec_val(b) >= 0,
    decreases b.len(),
{
    if b.len() > 0 {
        assert(all_digits(b.drop_last())) by {
            assert forall|i: int| 0 <= i < b.drop_last().len() implies 48 <= #[trigger] b.drop_last(
            )[i] <= 57 by {
                assert(b.drop_last()[i] == b[i]);
            }
        }
        lemma_dec_val_nonneg(b.drop_last());
    }
}

/// A digit string's value only grows as digits are appended.
proof fn lemma_dec_val_prefix(b: Seq<u8>, k: int)
    requires
        all_digits(b),
        0 <= k <= b.len(),
    ensures
        dec_val(b.take(k)) <= dec_val(b),
    decreases b.len() - k,
{
    if k < b.len() {
        assert(b.take(k + 1).drop_last() =~= b.take(k));
        assert(b.take(k + 1).last() == b[k]);
        assert(all_digits(b.take(k))) by {
            assert forall|i: int| 0 <= i < k implies 48 <= #[trigger] b.take(k)[i] <= 57 by {
                assert(b.take(k)[i] == b[i]);
            }
        }
        lemma_dec_val_nonneg(b.take(k));
        assert(dec_val(b.take(k + 1)) >= dec_val(b.take(k)));
        lemma_dec_val_prefix(b, k + 1);
    } else {
        assert(b.take(k) =~= b);
    }
}

/// Parse the digits in `b[lo..hi]` as a u64, refusing overflow, empty, and
/// non-digit input, exactly as the `amount` segment model does.
fn parse_digits(b: &[u8], lo: usize, hi: usize) -> (r: Option<u64>)
    requires
        lo <= hi <= b@.len(),
    ensures
        parse_dec(b@.subrange(lo as int, hi as int)) == (match r {
            Some(v) => Some(v as int),
            None => None::<int>,
        }),
{
    let ghost seg = b@.subrange(lo as int, hi as int);
    if lo == hi {
        return None;
    }
    let mut val: u64 = 0;
    let mut i: usize = lo;
    while i < hi
        invariant
            lo <= i <= hi <= b@.len(),
            seg == b@.subrange(lo as int, hi as int),
            val == dec_val(seg.take(i - lo)),
            all_digits(seg.take(i - lo)),
        decreases hi - i,
    {
        let d = b[i];
        proof {
            assert(seg[i - lo] == b@[i as int]);
            assert(seg.take(i - lo + 1).drop_last() =~= seg.take(i - lo));
            assert(seg.take(i - lo + 1).last() == seg[i - lo]);
        }
        if !(48 <= d && d <= 57) {
            proof {
                assert(!all_digits(seg));
            }
            return None;
        }
        proof {
            assert forall|k: int| 0 <= k < i - lo + 1 implies 48 <= #[trigger] seg.take(
                i - lo + 1,
            )[k] <= 57 by {
                if k < i - lo {
                    assert(seg.take(i - lo)[k] == seg.take(i - lo + 1)[k]);
                }
            }
        }
        if val > (u64::MAX - ((d - 48) as u64)) / 10 {
            proof {
                lemma_fundamental_div_mod((u64::MAX - ((d - 48) as u64)) as int, 10);
                assert(dec_val(seg.take(i - lo + 1)) > u64::MAX);
                if all_digits(seg) {
                    lemma_dec_val_prefix(seg, i - lo + 1);
                    assert(dec_val(seg) > u64::MAX);
                }
            }
            return None;
        }
        val = val * 10 + ((d - 48) as u64);
        i = i + 1;
    }
    proof {
        assert(seg.take(hi - lo) =~= seg);
    }
    Some(val)
}

/// Whether `b[lo..hi]` is the keyword `amount`.
fn is_amount_seg(b: &[u8], lo: usize, hi: usize) -> (r: bool)
    requires
        lo <= hi <= b@.len(),
    ensures
        r == (b@.subrange(lo as int, hi as int) == amount_lit()),
{
    if hi - lo != 6 {
        proof {
            assert(b@.subrange(lo as int, hi as int).len() != 6);
        }
        return false;
    }
    let r = b[lo] == 97 && b[lo + 1] == 109 && b[lo + 2] == 111 && b[lo + 3] == 117 && b[lo + 4]
        == 110 && b[lo + 5] == 116;
    proof {
        let seg = b@.subrange(lo as int, hi as int);
        if r {
            assert(seg =~= amount_lit());
        } else {
            if seg == amount_lit() {
                assert(seg[0] == 97 && seg[1] == 109 && seg[2] == 111 && seg[3] == 117 && seg[4]
                    == 110 && seg[5] == 116);
                assert(false);
            }
        }
    }
    r
}

/// Find the first `:` at or after `lo`, or the end.
fn find_colon(b: &[u8], lo: usize) -> (r: usize)
    requires
        lo <= b@.len(),
    ensures
        lo <= r <= b@.len(),
        r < b@.len() ==> b@[r as int] == 58,
        forall|k: int| lo <= k < r ==> b@[k] != 58,
        first_colon(b@.skip(lo as int)) == r - lo,
{
    let n = b.len();
    let mut j: usize = lo;
    while j < n
        invariant
            lo <= j <= n,
            n == b@.len(),
            forall|k: int| lo <= k < j ==> b@[k] != 58,
        decreases n - j,
    {
        if b[j] == 58 {
            proof {
                assert forall|k: int| 0 <= k < j - lo implies b@.skip(lo as int)[k] != 58 by {
                    assert(b@[lo + k] != 58);
                }
                lemma_first_colon_at(b@.skip(lo as int), j - lo);
            }
            return j;
        }
        j = j + 1;
    }
    proof {
        assert forall|k: int| 0 <= k < n - lo implies b@.skip(lo as int)[k] != 58 by {
            assert(b@[lo + k] != 58);
        }
        lemma_first_colon_at(b@.skip(lo as int), n - lo);
    }
    n
}

/// The action type: the prefix of the action up to the first `:`, or the
/// whole action.
pub fn parse_action_type(action: &str) -> (r: &str)
    ensures
        r.spec_bytes() == action_type_of(encode_utf8(action@)),
{
    let b = action.as_bytes();
    let c = find_colon(b, 0);
    proof {
        assert(b@.skip(0) =~= b@);
        assert(action_type_of(b@) =~= b@.subrange(0, c as int));
        encode_utf8_valid_utf8(action@);
        if (c as int) < b@.len() {
            assert(is_char_boundary(b@, c as int)) by {
                is_char_boundary_iff_not_is_continuation_byte(b@, c as int);
            }
        } else {
            assert(is_char_boundary(b@, c as int)) by {
                is_char_boundary_start_end_of_seq(b@);
            }
        }
    }
    let pair = action.split_at(c);
    proof {
        assert(pair.0.spec_bytes() =~= action_type_of(encode_utf8(action@)));
    }
    pair.0
}

/// The amount the action asserts, if any: the decimal segment after the
/// first `amount` segment.
pub fn parse_amount(action: &str) -> (r: Option<u64>)
    ensures
        amount_of(encode_utf8(action@)) == (match r {
            Some(v) => Some(v as int),
            None => None::<int>,
        }),
{
    let b = action.as_bytes();
    let n = b.len();
    let mut pos: usize = 0;
    proof {
        assert(b@.skip(0) =~= b@);
    }
    loop
        invariant
            pos <= n,
            n == b@.len(),
            b@ == encode_utf8(action@),
            amount_of(b@) == amount_of(b@.skip(pos as int)),
        decreases n - pos,
    {
        let c = find_colon(b, pos);
        let ghost suf = b@.skip(pos as int);
        proof {
            assert(suf.take(first_colon(suf)) =~= b@.subrange(pos as int, c as int));
        }
        if is_amount_seg(b, pos, c) {
            if c == n {
                return None;
            }
            let c2 = find_colon(b, c + 1);
            proof {
                assert(suf.skip(first_colon(suf) + 1) =~= b@.skip(c as int + 1));
                let rest = suf.skip(first_colon(suf) + 1);
                assert(rest.take(first_colon(rest)) =~= b@.subrange(c as int + 1, c2 as int));
            }
            return parse_digits(b, c + 1, c2);
        }
        if c == n {
            return None;
        }
        proof {
            assert(suf.skip(first_colon(suf) + 1) =~= b@.skip(c as int + 1));
        }
        pos = c + 1;
    }
}

impl PolicyEngine {
    /// Look up the limit for an action type given by its bytes.
    fn lookup_limit(&self, t: &str) -> (r: Option<u64>)
        ensures
            lookup(self@, t.spec_bytes()) == r,
    {
        let n = self.limits.len();
        let mut i: usize = 0;
        proof {
            assert(self@.skip(0) =~= self@);
        }
        loop
            invariant
                i <= n,
                n == self@.len(),
                lookup(self@, t.spec_bytes()) == lookup(self@.skip(i as int), t.spec_bytes()),
            decreases n - i,
        {
            if i == n {
                return None;
            }
            if bytes_eq(self.limits[i].0.as_str().as_bytes(), t.as_bytes()) {
                proof {
                    assert(self@.skip(i as int)[0] == self@[i as int]);
                }
                return Some(self.limits[i].1.max_amount);
            }
            proof {
                assert(self@.skip(i as int)[0] == self@[i as int]);
                assert(self@.skip(i as int).drop_first() =~= self@.skip(i as int + 1));
            }
            i = i + 1;
        }
    }

    /// The policy decision: pass unless this action's own type carries a
    /// limit and the asserted amount exceeds it; a denial reports the type,
    /// the limit, and the requested amount.
    pub fn check(&self, action: &str) -> (r: Result<(), Violation>)
        ensures
            r is Ok <==> check_spec(self@, encode_utf8(action@)),
            r is Err ==> ({
                let v = r->Err_0;
                &&& encode_utf8(v.action_type@) == action_type_of(encode_utf8(action@))
                &&& lookup(self@, action_type_of(encode_utf8(action@))) == Some(v.limit)
                &&& amount_of(encode_utf8(action@)) == Some(v.requested as int)
                &&& v.requested > v.limit
            }),
    {
        let t = parse_action_type(action);
        let limit = match self.lookup_limit(t) {
            Some(l) => l,
            None => {
                return Ok(());
            },
        };
        let amount = match parse_amount(action) {
            Some(a) => a,
            None => {
                return Ok(());
            },
        };
        if amount > limit {
            let v = Violation { action_type: t.to_owned(), limit, requested: amount };
            return Err(v);
        }
        Ok(())
    }
}

/// Byte-for-byte equality of two slices.
fn bytes_eq(a: &[u8], b: &[u8]) -> (r: bool)
    ensures
        r == (a@ == b@),
{
    let n = a.len();
    if b.len() != n {
        proof {
            assert(a@.len() != b@.len());
        }
        return false;
    }
    let mut i: usize = 0;
    while i < n
        invariant
            i <= n,
            n == a@.len() == b@.len(),
            forall|k: int| 0 <= k < i ==> a@[k] == b@[k],
        decreases n - i,
    {
        if a[i] != b[i] {
            return false;
        }
        i = i + 1;
    }
    proof {
        assert(a@ =~= b@);
    }
    true
}

} // verus!
