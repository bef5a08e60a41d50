//! Per-user WebAuthn session state around an external authenticator library:
//! single-use challenge stores with TTL eviction and a hard capacity, a
//! credential registry, and failure-count lockout. The library's own
//! ceremony calls happen outside; this module owns every state decision.

use vstd::prelude::*;
use crate::ascii::str_eq;
use crate::error::Error;

verus! {

/// Keyed entries in insertion order.
pub type KvSeq<V> = Seq<(Seq<char>, V)>;

pub open spec fn kv_contains<V>(s: KvSeq<V>, k: Seq<char>) -> bool {
    exists|i: int| 0 <= i < s.len() && (#[trigger] s[i]).0 == k
}

pub open spec fn kv_distinct<V>(s: KvSeq<V>) -> bool {
    forall|i: int, j: int| 0 <= i < j < s.len() ==> (#[trigger] s[i]).0 != (#[trigger] s[j]).0
}

/// First-match read.
pub open spec fn kv_entry<V>(s: KvSeq<V>, k: Seq<char>) -> Option<V>
    decreases s.len(),
{
    if s.len() == 0 {
        None
    } else if s[0].0 == k {
        Some(s[0].1)
    } else {
        kv_entry(s.drop_first(), k)
    }
}

/// Replace the first match, or append.
pub open spec fn kv_set<V>(s: KvSeq<V>, k: Seq<char>, v: V) -> KvSeq<V>
    decreases s.len(),
{
    if s.len() == 0 {
        seq![(k, v)]
    } else if s[0].0 == k {
        seq![(k, v)] + s.drop_first()
    } else {
        seq![s[0]] + kv_set(s.drop_first(), k, v)
    }
}

/// Remove the first match.
pub open spec fn kv_remove<V>(s: KvSeq<V>, k: Seq<char>) -> KvSeq<V>
    decreases s.len(),
{
    if s.len() == 0 {
        s
    } else if s[0].0 == k {
        s.drop_first()
    } else {
        seq![s[0]] + kv_remove(s.drop_first(), k)
    }
}

/// Challenge single-use: once an entry has been removed, a second take of
/// the same key finds nothing, so concurrent finishes race for one entry and
/// exactly one can see it.
pub proof fn law_challenge_single_use<V>(s: KvSeq<V>, k: Seq<char>)
    requires
        kv_distinct(s),
    ensures
        kv_entry(kv_remove(s, k), k) == None::<V>,
    decreases s.len(),
{
    if s.len() > 0 {
        lemma_kv_drop_first_distinct(s);
        if s[0].0 == k {
            if kv_entry(s.drop_first(), k) is Some {
                lemma_kv_entry_contains(s.drop_first(), k);
                let i = choose|i: int|
                    0 <= i < s.drop_first().len() && (#[trigger] s.drop_first()[i]).0 == k;
                assert(s[i + 1].0 == k);
                assert(false);
            }
        } else {
            law_challenge_single_use(s.drop_first(), k);
            let r = kv_remove(s.drop_first(), k);
            assert(kv_remove(s, k) == seq![s[0]] + r);
            assert((seq![s[0]] + r).drop_first() =~= r);
        }
    }
}

proof fn lemma_kv_entry_contains<V>(s: KvSeq<V>, k: Seq<char>)
    ensures
        kv_entry(s, k) is Some ==> kv_contains(s, k),
        kv_contains(s, k) ==> kv_entry(s, k) is Some,
    decreases s.len(),
{
    if s.len() > 0 {
        lemma_kv_entry_contains(s.drop_first(), k);
        if s[0].0 == k {
        } else {
            if kv_entry(s.drop_first(), k) is Some {
                let i = choose|i: int|
                    0 <= i < s.drop_first().len() && (#[trigger] s.drop_first()[i]).0 == k;
                assert(s[i + 1].0 == k);
            }
            if kv_contains(s, k) {
                let i = choose|i: int| 0 <= i < s.len() && (#[trigger] s[i]).0 == k;
                assert(s.drop_first()[i - 1].0 == k);
            }
        }
    }
}

proof fn lemma_kv_drop_first_distinct<V>(s: KvSeq<V>)
    requires
        s.len() > 0,
        kv_distinct(s),
    ensures
        kv_distinct(s.drop_first()),
{
    assert forall|i: int, j: int|
        0 <= i < j < s.drop_first().len() implies (#[trigger] s.drop_first()[i]).0 != (
    #[trigger] s.drop_first()[j]).0 by {
        assert(s[i + 1].0 != s[j + 1].0);
    }
}

proof fn lemma_kv_set_keys<V>(s: KvSeq<V>, k: Seq<char>, v: V, i: int)
    requires
        0 <= i < kv_set(s, k, v).len(),
    ensures
        kv_set(s, k, v)[i].0 == k || kv_contains(s, kv_set(s, k, v)[i].0),
    decreases s.len(),
{
    if s.len() == 0 {
    } else if s[0].0 == k {
        if i > 0 {
            assert(kv_set(s, k, v)[i] == s[i]);
        }
    } else {
        if i == 0 {
            assert(kv_set(s, k, v)[0] == s[0]);
        } else {
            lemma_kv_set_keys(s.drop_first(), k, v, i - 1);
            assert(kv_set(s, k, v)[i] == kv_set(s.drop_first(), k, v)[i - 1]);
            if kv_contains(s.drop_first(), kv_set(s.drop_first(), k, v)[i - 1].0) {
                let j = choose|j: int|
                    0 <= j < s.drop_first().len() && (#[trigger] s.drop_first()[j]).0 == kv_set(
                        s.drop_first(),
                        k,
                        v,
                    )[i - 1].0;
                assert(s[j + 1].0 == kv_set(s, k, v)[i].0);
            }
        }
    }
}

proof fn lemma_kv_set_distinct<V>(s: KvSeq<V>, k: Seq<char>, v: V)
    requires
        kv_distinct(s),
    ensures
        kv_distinct(kv_set(s, k, v)),
    decreases s.len(),
{
    if s.len() == 0 {
    } else if s[0].0 == k {
        assert forall|i: int, j: int|
            0 <= i < j < kv_set(s, k, v).len() implies (#[trigger] kv_set(s, k, v)[i]).0 != (
        #[trigger] kv_set(s, k, v)[j]).0 by {
            if i == 0 {
                assert(kv_set(s, k, v)[j] == s[j]);
                assert(s[0].0 != s[j].0);
            } else {
                assert(kv_set(s, k, v)[i] == s[i]);
                assert(kv_set(s, k, v)[j] == s[j]);
            }
        }
    } else {
        lemma_kv_drop_first_distinct(s);
        lemma_kv_set_distinct(s.drop_first(), k, v);
        assert forall|i: int, j: int|
            0 <= i < j < kv_set(s, k, v).len() implies (#[trigger] kv_set(s, k, v)[i]).0 != (
        #[trigger] kv_set(s, k, v)[j]).0 by {
            let rest = kv_set(s.drop_first(), k, v);
            if i == 0 {
                assert(kv_set(s, k, v)[j] == rest[j - 1]);
                lemma_kv_set_keys(s.drop_first(), k, v, j - 1);
            } else {
                assert(kv_set(s, k, v)[i] == rest[i - 1]);
                assert(kv_set(s, k, v)[j] == rest[j - 1]);
            }
        }
    }
}

proof fn lemma_kv_remove_distinct<V>(s: KvSeq<V>, k: Seq<char>)
    requires
        kv_distinct(s),
    ensures
        kv_distinct(kv_remove(s, k)),
    decreases s.len(),
{
    if s.len() > 0 {
        lemma_kv_drop_first_distinct(s);
        if s[0].0 == k {
        } else {
            lemma_kv_remove_distinct(s.drop_first(), k);
            assert forall|i: int, j: int|
                0 <= i < j < kv_remove(s, k).len() implies (#[trigger] kv_remove(s, k)[i]).0 != (
            #[trigger] kv_remove(s, k)[j]).0 by {
                let rest = kv_remove(s.drop_first(), k);
                if i == 0 {
                    assert(kv_remove(s, k)[j] == rest[j - 1]);
                    lemma_kv_remove_keys(s.drop_first(), k, j - 1);
                } else {
                    assert(kv_remove(s, k)[i] == rest[i - 1]);
                    assert(kv_remove(s, k)[j] == rest[j - 1]);
                }
            }
        }
    }
}

proof fn lemma_kv_remove_keys<V>(s: KvSeq<V>, k: Seq<char>, i: int)
    requires
        0 <= i < kv_remove(s, k).len(),
    ensures
        kv_contains(s, kv_remove(s, k)[i].0),
    decreases s.len(),
{
    if s.len() > 0 {
        if s[0].0 == k {
            assert(kv_remove(s, k)[i] == s[i + 1]);
        } else {
            if i == 0 {
                assert(kv_remove(s, k)[0] == s[0]);
            } else {
                lemma_kv_remove_keys(s.drop_first(), k, i - 1);
                assert(kv_remove(s, k)[i] == kv_remove(s.drop_first(), k)[i - 1]);
                let j = choose|j: int|
                    0 <= j < s.drop_first().len() && (#[trigger] s.drop_first()[j]).0 == kv_remove(
                        s.drop_first(),
                        k,
                    )[i - 1].0;
                assert(s[j + 1].0 == kv_remove(s, k)[i].0);
            }
        }
    }
}

/// A per-user failure record: count and the last failure instant.
pub type FailureRec = (u32, i64);

/// Whether a user is locked out at `now`: at least five failures, the last
/// within fifteen minutes.
pub open spec fn locked_out(failures: KvSeq<FailureRec>, user: Seq<char>, now: i64) -> bool {
    match kv_entry(failures, user) {
        Some(f) => f.0 >= 5 && now - f.1 < 900,
        None => false,
    }
}

/// The per-user lockout ledger.
pub struct FailureLedger {
    entries: Vec<(String, (u32, i64))>,
}

impl FailureLedger {
    pub closed spec fn view(&self) -> KvSeq<FailureRec> {
        self.entries@.map_values(|e: (String, (u32, i64))| (e.0@, e.1))
    }

    pub closed spec fn wf(&self) -> bool {
        kv_distinct(self.view())
    }

    pub fn new() -> (r: FailureLedger)
        ensures
            r.wf(),
            r.view() == Seq::<(Seq<char>, FailureRec)>::empty(),
    {
        let r = FailureLedger { entries: Vec::new() };
        proof {
            assert(r.view() =~= Seq::<(Seq<char>, FailureRec)>::empty());
        }
        r
    }

    fn find(&self, user: &str) -> (r: Option<usize>)
        ensures
            r is Some ==> ({
                let i = r.unwrap() as int;
                &&& 0 <= i < self.view().len()
                &&& self.view()[i].0 == user@
                &&& kv_entry(self.view(), user@) == Some(self.view()[i].1)
            }),
            r is None ==> kv_entry(self.view(), user@) == None::<FailureRec> && (forall|t: int|
                0 <= t < self.view().len() ==> (#[trigger] self.view()[t]).0 != user@),
    {
        let n = self.entries.len();
        let mut i: usize = 0;
        proof {
            assert(self.view().skip(0) =~= self.view());
        }
        loop
            invariant
                i <= n,
                n == self.view().len(),
                kv_entry(self.view(), user@) == kv_entry(self.view().skip(i as int), user@),
                forall|k: int| 0 <= k < i ==> (#[trigger] self.view()[k]).0 != user@,
            decreases n - i,
        {
            if i == n {
                proof {
                    assert(self.view().skip(n as int) =~= Seq::<(Seq<char>, FailureRec)>::empty());
                }
                return None;
            }
            proof {
                assert(self.view().skip(i as int)[0] == self.view()[i as int]);
                assert(self.view().skip(i as int).drop_first() =~= self.view().skip(i as int + 1));
            }
            if str_eq(self.entries[i].0.as_str(), user) {
                return Some(i);
            }
            i = i + 1;
        }
    }

    /// Whether the user is locked out at `now`.
    pub fn is_locked_out_at(&self, user: &str, now: i64) -> (r: bool)
        ensures
            r == locked_out(self.view(), user@, now),
    {
        match self.find(user) {
            None => false,
            Some(i) => {
                let f = self.entries[i].1;
                f.0 >= 5 && (now as i128) - (f.1 as i128) < 900
            },
        }
    }

    /// Count a failed authentication at `now`: the user's count rises by one
    /// (saturating) and the instant is remembered. Five failures within
    /// fifteen minutes lock the user out.
    pub fn record_failure_at(&mut self, user: &str, now: i64)
        requires
            old(self).wf(),
        ensures
            final(self).wf(),
            ({
                let prev = match kv_entry(old(self).view(), user@) {
                    Some(f) => f,
                    None => (0u32, now),
                };
                let cnt = if prev.0 < u32::MAX {
                    (prev.0 + 1) as u32
                } else {
                    prev.0
                };
                final(self).view() == kv_set(old(self).view(), user@, (cnt, now))
            }),
    {
        let ghost view = self.view();
        match self.find(user) {
            Some(i) => {
                let prev = self.entries[i].1;
                let cnt: u32 = if prev.0 < u32::MAX {
                    prev.0 + 1
                } else {
                    prev.0
                };
                let k0 = self.entries[i].0.clone();
                self.entries[i] = (k0, (cnt, now));
                proof {
                    lemma_kv_set_at(view, i as int, user@, (cnt, now));
                    assert(self.view() =~= view.take(i as int) + (seq![(user@, (cnt, now))]
                        + view.skip(i as int + 1)));
                    lemma_kv_set_distinct(view, user@, (cnt, now));
                }
            },
            None => {
                self.entries.push((user.to_owned(), (1, now)));
                proof {
                    lemma_kv_set_absent(view, user@, (1u32, now));
                    assert(self.view() =~= view + seq![(user@, (1u32, now))]);
                    lemma_kv_set_distinct(view, user@, (1u32, now));
                }
            },
        }
    }

    /// Forget the user's failures after a successful authentication.
    pub fn clear_failures(&mut self, user: &str)
        requires
            old(self).wf(),
        ensures
            final(self).wf(),
            final(self).view() == kv_remove(old(self).view(), user@),
            kv_entry(final(self).view(), user@) == None::<FailureRec>,
    {
        let ghost view = self.view();
        match self.find(user) {
            Some(i) => {
                self.entries.remove(i);
                proof {
                    lemma_kv_remove_at(view, i as int, user@);
                    assert(self.view() =~= view.take(i as int) + view.skip(i as int + 1));
                    lemma_kv_remove_distinct(view, user@);
                    law_challenge_single_use(view, user@);
                }
            },
            None => {
                proof {
                    lemma_kv_remove_absent(view, user@);
                    lemma_kv_remove_distinct(view, user@);
                    law_challenge_single_use(view, user@);
                }
            },
        }
    }
}

/// Writing a present key rewrites the matched slot in place.
proof fn lemma_kv_set_at<V>(s: KvSeq<V>, i: int, k: Seq<char>, v: V)
    requires
        0 <= i < s.len(),
        s[i].0 == k,
        forall|t: int| 0 <= t < i ==> (#[trigger] s[t]).0 != k,
    ensures
        kv_set(s, k, v) == s.take(i) + (seq![(k, v)] + s.skip(i + 1)),
    decreases s.len(),
{
    if i == 0 {
        assert(s.drop_first() =~= s.skip(1));
        assert(kv_set(s, k, v) =~= s.take(0) + (seq![(k, v)] + s.skip(1)));
    } else {
        assert forall|t: int| 0 <= t < i - 1 implies (#[trigger] s.drop_first()[t]).0 != k by {
            assert(s[t + 1].0 != k);
        }
        assert(s.drop_first()[i - 1].0 == k);
        lemma_kv_set_at(s.drop_first(), i - 1, k, v);
        assert(kv_set(s, k, v) == seq![s[0]] + kv_set(s.drop_first(), k, v));
        assert(kv_set(s, k, v) =~= s.take(i) + (seq![(k, v)] + s.skip(i + 1)));
    }
}

/// Writing an absent key appends.
proof fn lemma_kv_set_absent<V>(s: KvSeq<V>, k: Seq<char>, v: V)
    requires
        forall|t: int| 0 <= t < s.len() ==> (#[trigger] s[t]).0 != k,
    ensures
        kv_set(s, k, v) == s + seq![(k, v)],
    decreases s.len(),
{
    if s.len() == 0 {
        assert(kv_set(s, k, v) =~= s + seq![(k, v)]);
    } else {
        assert forall|t: int| 0 <= t < s.drop_first().len() implies (#[trigger] s.drop_first(
        )[t]).0 != k by {
            assert(s[t + 1].0 != k);
        }
        lemma_kv_set_absent(s.drop_first(), k, v);
        assert(kv_set(s, k, v) =~= s + seq![(k, v)]);
    }
}

/// Removing a present key deletes the matched slot.
proof fn lemma_kv_remove_at<V>(s: KvSeq<V>, i: int, k: Seq<char>)
    requires
        0 <= i < s.len(),
        s[i].0 == k,
        forall|t: int| 0 <= t < i ==> (#[trigger] s[t]).0 != k,
    ensures
        kv_remove(s, k) == s.take(i) + s.skip(i + 1),
    decreases s.len(),
{
    if i == 0 {
        assert(kv_remove(s, k) =~= s.take(0) + s.skip(1));
    } else {
        assert forall|t: int| 0 <= t < i - 1 implies (#[trigger] s.drop_first()[t]).0 != k by {
            assert(s[t + 1].0 != k);
        }
        assert(s.drop_first()[i - 1].0 == k);
        lemma_kv_remove_at(s.drop_first(), i - 1, k);
        assert(kv_remove(s, k) == seq![s[0]] + kv_remove(s.drop_first(), k));
        assert(kv_remove(s, k) =~= s.take(i) + s.skip(i + 1));
    }
}

/// Removing an absent key changes nothing.
proof fn lemma_kv_remove_absent<V>(s: KvSeq<V>, k: Seq<char>)
    requires
        forall|t: int| 0 <= t < s.len() ==> (#[trigger] s[t]).0 != k,
    ensures
        kv_remove(s, k) == s,
    decreases s.len(),
{
    if s.len() > 0 {
        assert forall|t: int| 0 <= t < s.drop_first().len() implies (#[trigger] s.drop_first(
        )[t]).0 != k by {
            assert(s[t + 1].0 != k);
        }
        lemma_kv_remove_absent(s.drop_first(), k);
        assert(kv_remove(s, k) =~= s);
    }
}

/// A single-use challenge store: per-user entries with their creation
/// instants, evicted after five minutes, capped at ten thousand.
pub struct ChallengeStore<T> {
    entries: Vec<(String, (T, i64))>,
}

/// The entries still fresh at `now`: created within the last five minutes.
pub open spec fn fresh_challenges<T>(s: KvSeq<(T, i64)>, now: i64) -> KvSeq<(T, i64)>
    decreases s.len(),
{
    if s.len() == 0 {
        Seq::empty()
    } else if now - s.last().1.1 <= 300 {
        fresh_challenges(s.drop_last(), now) + seq![s.last()]
    } else {
        fresh_challenges(s.drop_last(), now)
    }
}

proof fn lemma_fresh_challenges_contains<T>(s: KvSeq<(T, i64)>, now: i64, k: Seq<char>)
    ensures
        kv_contains(fresh_challenges(s, now), k) ==> kv_contains(s, k),
    decreases s.len(),
{
    if s.len() > 0 {
        lemma_fresh_challenges_contains(s.drop_last(), now, k);
        let f = fresh_challenges(s, now);
        let fp = fresh_challenges(s.drop_last(), now);
        if kv_contains(f, k) {
            let i = choose|i: int| 0 <= i < f.len() && (#[trigger] f[i]).0 == k;
            if now - s.last().1.1 <= 300 && i == f.len() - 1 {
                assert(s[s.len() - 1].0 == k);
            } else {
                assert(fp[i].0 == k);
                let j = choose|j: int|
                    0 <= j < s.drop_last().len() && (#[trigger] s.drop_last()[j]).0 == k;
                assert(s[j].0 == k);
            }
        }
    }
}

proof fn lemma_fresh_challenges_distinct<T>(s: KvSeq<(T, i64)>, now: i64)
    requires
        kv_distinct(s),
    ensures
        kv_distinct(fresh_challenges(s, now)),
    decreases s.len(),
{
    if s.len() > 0 {
        assert(kv_distinct(s.drop_last())) by {
            assert forall|i: int, j: int|
                0 <= i < j < s.drop_last().len() implies (#[trigger] s.drop_last()[i]).0 != (
            #[trigger] s.drop_last()[j]).0 by {
                assert(s[i].0 != s[j].0);
            }
        }
        lemma_fresh_challenges_distinct(s.drop_last(), now);
        if now - s.last().1.1 <= 300 {
            let fp = fresh_challenges(s.drop_last(), now);
            assert(!kv_contains(fp, s.last().0)) by {
                lemma_fresh_challenges_contains(s.drop_last(), now, s.last().0);
                if kv_contains(s.drop_last(), s.last().0) {
                    let j = choose|j: int|
                        0 <= j < s.drop_last().len() && (#[trigger] s.drop_last()[j]).0
                            == s.last().0;
                    assert(s[j].0 == s[s.len() - 1].0);
                }
            }
            assert forall|i: int, j: int|
                0 <= i < j < fresh_challenges(s, now).len() implies (
            #[trigger] fresh_challenges(s, now)[i]).0 != (#[trigger] fresh_challenges(
                s,
                now,
            )[j]).0 by {
                if j < fp.len() {
                } else {
                    if fresh_challenges(s, now)[i].0 == s.last().0 {
                        assert(fp[i].0 == s.last().0);
                        assert(kv_contains(fp, s.last().0));
                    }
                }
            }
        }
    }
}

impl<T> ChallengeStore<T> {
    pub closed spec fn view(&self) -> KvSeq<(T, i64)> {
        self.entries@.map_values(|e: (String, (T, i64))| (e.0@, e.1))
    }

    pub closed spec fn wf(&self) -> bool {
        kv_distinct(self.view())
    }

    pub fn new() -> (r: ChallengeStore<T>)
        ensures
            r.wf(),
            r.view() == Seq::<(Seq<char>, (T, i64))>::empty(),
    {
        let r = ChallengeStore { entries: Vec::new() };
        proof {
            assert(r.view() =~= Seq::<(Seq<char>, (T, i64))>::empty());
        }
        r
    }

    /// Drop entries older than the challenge TTL.
    fn evict(&mut self, now: i64)
        ensures
            final(self).view() == fresh_challenges(old(self).view(), now),
    {
        let ghost view = self.view();
        let n = self.entries.len();
        let mut kept: Vec<(String, (T, i64))> = Vec::new();
        let mut i: usize = 0;
        proof {
            assert(view.skip(0) =~= view);
            assert(view.take(0) =~= Seq::<(Seq<char>, (T, i64))>::empty());
        }
        while i < n
            invariant
                i <= n,
                n == view.len(),
                self.entries@.map_values(|e: (String, (T, i64))| (e.0@, e.1)) == view.skip(
                    i as int,
                ),
                kept@.map_values(|e: (String, (T, i64))| (e.0@, e.1)) == fresh_challenges(
                    view.take(i as int),
                    now,
                ),
            decreases n - i,
        {
            proof {
                assert(view.take(i as int + 1).drop_last() =~= view.take(i as int));
                assert(view.take(i as int + 1).last() == view[i as int]);
                assert(view.skip(i as int)[0] == view[i as int]);
                assert(view.skip(i as int).len() == n - i);
            }
            let ghost pre = self.entries@;
            let e = self.entries.remove(0);
            proof {
                assert(pre.map_values(|f: (String, (T, i64))| (f.0@, f.1)) == view.skip(i as int));
                assert forall|j: int|
                    0 <= j < self.entries@.len() implies self.entries@.map_values(
                    |f: (String, (T, i64))| (f.0@, f.1),
                )[j] == #[trigger] view.skip(i as int + 1)[j] by {
                    assert(self.entries@[j] == pre[j + 1]);
                    assert(pre.map_values(|f: (String, (T, i64))| (f.0@, f.1))[j + 1] == view.skip(
                        i as int,
                    )[j + 1]);
                    assert(view.skip(i as int)[j + 1] == view[i + 1 + j]);
                    assert(view.skip(i as int + 1)[j] == view[i + 1 + j]);
                }
                assert(self.entries@.map_values(|e: (String, (T, i64))| (e.0@, e.1)) =~= view.skip(
                    i as int + 1,
                ));
            }
            let created = e.1.1;
            if (now as i128) - (created as i128) <= 300 {
                kept.push(e);
            }
            proof {
                assert(kept@.map_values(|e: (String, (T, i64))| (e.0@, e.1)) =~= fresh_challenges(
                    view.take(i as int + 1),
                    now,
                ));
            }
            i = i + 1;
        }
        self.entries = kept;
        proof {
            assert(view.take(n as int) =~= view);
        }
    }

    /// Begin a ceremony at `now`: evict stale challenges, refuse at
    /// capacity, then store this user's challenge (replacing any pending
    /// one).
    pub fn insert_at(&mut self, user: &str, data: T, now: i64) -> (r: Result<(), Error>)
        requires
            old(self).wf(),
        ensures
            final(self).wf(),
            ({
                let evicted = fresh_challenges(old(self).view(), now);
                &&& (r is Err <==> evicted.len() >= 10000)
                &&& r is Err ==> (r matches Err(Error::ServiceUnavailable(_)))
                    && final(self).view() == evicted
                &&& r is Ok ==> final(self).view() == kv_set(evicted, user@, (data, now))
            }),
    {
        self.evict(now);
        proof {
            lemma_fresh_challenges_distinct(old(self).view(), now);
        }
        if self.entries.len() >= 10000 {
            return Err(Error::ServiceUnavailable("challenge store at capacity".to_owned()));
        }
        let ghost view = self.view();
        match self.find(user) {
            Some(i) => {
                let k0 = self.entries[i].0.clone();
                self.entries[i] = (k0, (data, now));
                proof {
                    lemma_kv_set_at(view, i as int, user@, (data, now));
                    assert(self.view() =~= view.take(i as int) + (seq![(user@, (data, now))]
                        + view.skip(i as int + 1)));
                    lemma_kv_set_distinct(view, user@, (data, now));
                }
            },
            None => {
                self.entries.push((user.to_owned(), (data, now)));
                proof {
                    lemma_kv_set_absent(view, user@, (data, now));
                    assert(self.view() =~= view + seq![(user@, (data, now))]);
                    lemma_kv_set_distinct(view, user@, (data, now));
                }
            },
        }
        Ok(())
    }

    fn find(&self, user: &str) -> (r: Option<usize>)
        ensures
            r is Some ==> ({
                let i = r.unwrap() as int;
                &&& 0 <= i < self.view().len()
                &&& self.view()[i].0 == user@
                &&& forall|t: int| 0 <= t < i ==> (#[trigger] self.view()[t]).0 != user@
            }),
            r is None ==> forall|t: int|
                0 <= t < self.view().len() ==> (#[trigger] self.view()[t]).0 != user@,
    {
        let n = self.entries.len();
        let mut i: usize = 0;
        loop
            invariant
                i <= n,
                n == self.view().len(),
                forall|k: int| 0 <= k < i ==> (#[trigger] self.view()[k]).0 != user@,
            decreases n - i,
        {
            if i == n {
                return None;
            }
            if str_eq(self.entries[i].0.as_str(), user) {
                proof {
                    assert(self.view()[i as int].0 == user@);
                }
                return Some(i);
            }
            i = i + 1;
        }
    }

    /// Consume this user's pending challenge: the entry is removed whether
    /// or not it is still fresh, so a challenge can be seen at most once.
    pub fn take_at(&mut self, user: &str, now: i64) -> (r: Result<T, Error>)
        requires
            old(self).wf(),
        ensures
            final(self).wf(),
            final(self).view() == kv_remove(old(self).view(), user@),
            kv_entry(final(self).view(), user@) == None::<(T, i64)>,
            r is Ok <==> (match kv_entry(old(self).view(), user@) {
                Some(e) => now - e.1 <= 300,
                None => false,
            }),
            r is Err ==> r matches Err(Error::Unauthorized(_)),
    {
        let ghost view = self.view();
        proof {
            law_challenge_single_use(view, user@);
        }
        match self.find(user) {
            None => {
                proof {
                    lemma_kv_remove_absent(view, user@);
                    lemma_kv_remove_distinct(view, user@);
                    lemma_kv_entry_at_none(view, user@);
                }
                Err(Error::Unauthorized("no pending challenge".to_owned()))
            },
            Some(i) => {
                let e = self.entries.remove(i);
                proof {
                    lemma_kv_remove_at(view, i as int, user@);
                    assert(self.view() =~= view.take(i as int) + view.skip(i as int + 1));
                    lemma_kv_remove_distinct(view, user@);
                    lemma_kv_entry_at(view, i as int, user@);
                }
                let created = e.1.1;
                if (now as i128) - (created as i128) > 300 {
                    return Err(Error::Unauthorized("challenge expired".to_owned()));
                }
                Ok(e.1.0)
            },
        }
    }
}

/// The first-match entry is the one at the first matching index.
proof fn lemma_kv_entry_at<V>(s: KvSeq<V>, i: int, k: Seq<char>)
    requires
        0 <= i < s.len(),
        s[i].0 == k,
        forall|t: int| 0 <= t < i ==> (#[trigger] s[t]).0 != k,
    ensures
        kv_entry(s, k) == Some(s[i].1),
    decreases s.len(),
{
    if i > 0 {
        assert forall|t: int| 0 <= t < i - 1 implies (#[trigger] s.drop_first()[t]).0 != k by {
            assert(s[t + 1].0 != k);
        }
        assert(s.drop_first()[i - 1].0 == k);
        lemma_kv_entry_at(s.drop_first(), i - 1, k);
    }
}

/// With no matching key there is no entry.
proof fn lemma_kv_entry_at_none<V>(s: KvSeq<V>, k: Seq<char>)
    requires
        forall|t: int| 0 <= t < s.len() ==> (#[trigger] s[t]).0 != k,
    ensures
        kv_entry(s, k) == None::<V>,
    decreases s.len(),
{
    if s.len() > 0 {
        assert forall|t: int| 0 <= t < s.drop_first().len() implies (#[trigger] s.drop_first(
        )[t]).0 != k by {
            assert(s[t + 1].0 != k);
        }
        lemma_kv_entry_at_none(s.drop_first(), k);
    }
}

/// The registered credentials: one per user, where re-registration replaces
/// the previous credential.
pub struct CredentialStore<C> {
    entries: Vec<(String, C)>,
}

impl<C> CredentialStore<C> {
    pub closed spec fn view(&self) -> KvSeq<C> {
        self.entries@.map_values(|e: (String, C)| (e.0@, e.1))
    }

    pub closed spec fn wf(&self) -> bool {
        kv_distinct(self.view())
    }

    pub fn new() -> (r: CredentialStore<C>)
        ensures
            r.wf(),
            r.view() == Seq::<(Seq<char>, C)>::empty(),
    {
        let r = CredentialStore { entries: Vec::new() };
        proof {
            assert(r.view() =~= Seq::<(Seq<char>, C)>::empty());
        }
        r
    }

    fn find(&self, user: &str) -> (r: Option<usize>)
        ensures
            r is Some ==> ({
                let i = r.unwrap() as int;
                &&& 0 <= i < self.view().len()
                &&& self.view()[i].0 == user@
                &&& forall|t: int| 0 <= t < i ==> (#[trigger] self.view()[t]).0 != user@
            }),
            r is None ==> forall|t: int|
                0 <= t < self.view().len() ==> (#[trigger] self.view()[t]).0 != user@,
    {
        let n = self.entries.len();
        let mut i: usize = 0;
        loop
            invariant
                i <= n,
                n == self.view().len(),
                forall|k: int| 0 <= k < i ==> (#[trigger] self.view()[k]).0 != user@,
            decreases n - i,
        {
            if i == n {
                return None;
            }
            if str_eq(self.entries[i].0.as_str(), user) {
                proof {
                    assert(self.view()[i as int].0 == user@);
                }
                return Some(i);
            }
            i = i + 1;
        }
    }

    /// Register or replace this user's credential.
    pub fn upsert(&mut self, user: &str, cred: C)
        requires
            old(self).wf(),
        ensures
            final(self).wf(),
            final(self).view() == kv_set(old(self).view(), user@, cred),
    {
        let ghost view = self.view();
        match self.find(user) {
            Some(i) => {
                let k0 = self.entries[i].0.clone();
                self.entries[i] = (k0, cred);
                proof {
                    lemma_kv_set_at(view, i as int, user@, cred);
                    assert(self.view() =~= view.take(i as int) + (seq![(user@, cred)] + view.skip(
                        i as int + 1,
                    )));
                    lemma_kv_set_distinct(view, user@, cred);
                }
            },
            None => {
                self.entries.push((user.to_owned(), cred));
                proof {
                    lemma_kv_set_absent(view, user@, cred);
                    assert(self.view() =~= view + seq![(user@, cred)]);
                    lemma_kv_set_distinct(view, user@, cred);
                }
            },
        }
    }

    /// This user's credential, if one is registered.
    pub fn lookup(&self, user: &str) -> (r: Option<&C>)
        ensures
            r is Some <==> kv_entry(self.view(), user@) is Some,
            r is Some ==> kv_entry(self.view(), user@) == Some(*r.unwrap()),
    {
        match self.find(user) {
            Some(i) => {
                proof {
                    lemma_kv_entry_at(self.view(), i as int, user@);
                }
                Some(&self.entries[i].1)
            },
            None => {
                proof {
                    lemma_kv_entry_at_none(self.view(), user@);
                }
                None
            },
        }
    }
}

} // verus!
