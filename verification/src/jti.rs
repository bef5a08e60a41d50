//! In-memory replay protection over token ids: an at-most-once set with
//! expiry-driven eviction and a hard capacity. Eviction runs before the
//! capacity check so expired load never starves live traffic.

use vstd::prelude::*;
use crate::clock::now_unix;
use crate::error::Error;

verus! {

/// The model of the store: token ids with their expiry instants, in
/// insertion order.
pub type JtiEntries = Seq<(Seq<char>, i64)>;

pub open spec fn contains_jti(s: JtiEntries, j: Seq<char>) -> bool {
    exists|i: int| 0 <= i < s.len() && (#[trigger] s[i]).0 == j
}

pub open spec fn distinct_keys(s: JtiEntries) -> bool {
    forall|i: int, k: int| 0 <= i < k < s.len() ==> (#[trigger] s[i]).0 != (#[trigger] s[k]).0
}

/// The entries of `s` still live at `now` (expiry strictly in the future),
/// in order.
pub open spec fn live(s: JtiEntries, now: i64) -> JtiEntries
    decreases s.len(),
{
    if s.len() == 0 {
        Seq::empty()
    } else if s.last().1 > now {
        live(s.drop_last(), now) + seq![s.last()]
    } else {
        live(s.drop_last(), now)
    }
}

/// Membership in the live part means a live entry with that id exists.
pub proof fn lemma_live_contains(s: JtiEntries, now: i64, j: Seq<char>)
    ensures
        contains_jti(live(s, now), j) <==> exists|i: int|
            0 <= i < s.len() && (#[trigger] s[i]).0 == j && s[i].1 > now,
    decreases s.len(),
{
    if s.len() > 0 {
        lemma_live_contains(s.drop_last(), now, j);
        let l = live(s, now);
        let lp = live(s.drop_last(), now);
        if s.last().1 > now {
            if s.last().0 == j {
                assert(l[l.len() - 1].0 == j);
                assert(s[s.len() - 1].0 == j && s[s.len() - 1].1 > now);
            }
            if contains_jti(l, j) && s.last().0 != j {
                let i = choose|i: int| 0 <= i < l.len() && (#[trigger] l[i]).0 == j;
                if i < lp.len() {
                    assert(lp[i].0 == j);
                }
            }
            if exists|i: int| 0 <= i < s.len() && (#[trigger] s[i]).0 == j && s[i].1 > now {
                let i = choose|i: int|
                    0 <= i < s.len() && (#[trigger] s[i]).0 == j && s[i].1 > now;
                if i < s.len() - 1 {
                    assert(s.drop_last()[i].0 == j && s.drop_last()[i].1 > now);
                    let k = choose|k: int| 0 <= k < lp.len() && (#[trigger] lp[k]).0 == j;
                    assert(l[k].0 == j);
                }
            }
        } else {
            if contains_jti(l, j) {
                let i = choose|i: int| 0 <= i < l.len() && (#[trigger] l[i]).0 == j;
                assert(lp[i].0 == j);
            }
            if exists|i: int| 0 <= i < s.len() && (#[trigger] s[i]).0 == j && s[i].1 > now {
                let i = choose|i: int|
                    0 <= i < s.len() && (#[trigger] s[i]).0 == j && s[i].1 > now;
                assert(i < s.len() - 1);
                assert(s.drop_last()[i].0 == j && s.drop_last()[i].1 > now);
            }
        }
    }
}

/// Eviction never grows the store.
pub proof fn lemma_live_len(s: JtiEntries, now: i64)
    ensures
        live(s, now).len() <= s.len(),
    decreases s.len(),
{
    if s.len() > 0 {
        lemma_live_len(s.drop_last(), now);
    }
}

/// Eviction keeps ids distinct.
pub proof fn lemma_live_distinct(s: JtiEntries, now: i64)
    requires
        distinct_keys(s),
    ensures
        distinct_keys(live(s, now)),
    decreases s.len(),
{
    if s.len() > 0 {
        assert(distinct_keys(s.drop_last())) by {
            assert forall|i: int, k: int|
                0 <= i < k < s.drop_last().len() implies (#[trigger] s.drop_last()[i]).0 != (
            #[trigger] s.drop_last()[k]).0 by {
                assert(s[i].0 != s[k].0);
            }
        }
        lemma_live_distinct(s.drop_last(), now);
        if s.last().1 > now {
            let lp = live(s.drop_last(), now);
            assert(!contains_jti(lp, s.last().0)) by {
                lemma_live_contains(s.drop_last(), now, s.last().0);
                if exists|i: int|
                    0 <= i < s.drop_last().len() && (#[trigger] s.drop_last()[i]).0
                        == s.last().0 && s.drop_last()[i].1 > now {
                    let i = choose|i: int|
                        0 <= i < s.drop_last().len() && (#[trigger] s.drop_last()[i]).0
                            == s.last().0 && s.drop_last()[i].1 > now;
                    assert(s[i].0 == s[s.len() - 1].0);
                    assert(false);
                }
            }
            assert forall|i: int, k: int|
                0 <= i < k < live(s, now).len() implies (#[trigger] live(s, now)[i]).0 != (
            #[trigger] live(s, now)[k]).0 by {
                if k < lp.len() {
                } else {
                    assert(live(s, now)[k] == s.last());
                    if live(s, now)[i].0 == s.last().0 {
                        assert(lp[i].0 == s.last().0);
                        assert(contains_jti(lp, s.last().0));
                    }
                }
            }
        }
    }
}

/// Eviction liveness: once every entry has expired, the live part is empty,
/// so (by `check_and_insert_at`'s contract) the next insert succeeds
/// regardless of how large the store had grown.
pub proof fn law_eviction_liveness(s: JtiEntries, now: i64)
    requires
        forall|i: int| 0 <= i < s.len() ==> (#[trigger] s[i]).1 <= now,
    ensures
        live(s, now) == Seq::<(Seq<char>, i64)>::empty(),
    decreases s.len(),
{
    if s.len() > 0 {
        assert(s.last().1 <= now);
        assert forall|i: int| 0 <= i < s.drop_last().len() implies (#[trigger] s.drop_last()[i]).1
            <= now by {
            assert(s[i].1 <= now);
        }
        law_eviction_liveness(s.drop_last(), now);
    }
}

/// At-most-once redemption: once an insert of `j` has succeeded, the store
/// still holds `j` after any later eviction while `j` is unexpired, so (by
/// `check_and_insert_at`'s contract) every concurrent or later attempt with
/// the same id fails with `ReplayDetected` instead of succeeding.
pub proof fn law_at_most_once(s: JtiEntries, j: Seq<char>, exp: i64, now: i64, now2: i64)
    requires
        now2 < exp,
    ensures
        contains_jti(live(live(s, now).push((j, exp)), now2), j),
{
    let s1 = live(s, now).push((j, exp));
    assert(s1[s1.len() - 1].0 == j && s1[s1.len() - 1].1 > now2);
    lemma_live_contains(s1, now2, j);
}

/// The replay store: entries in insertion order with distinct ids.
pub struct JtiStore {
    entries: Vec<(String, i64)>,
    max_capacity: usize,
}

impl JtiStore {
    pub closed spec fn view(&self) -> JtiEntries {
        self.entries@.map_values(|e: (String, i64)| (e.0@, e.1))
    }

    pub open spec fn wf(&self) -> bool {
        &&& distinct_keys(self.view())
        &&& self.view().len() <= self.capacity()
    }

    pub closed spec fn capacity(&self) -> int {
        self.max_capacity as int
    }

    /// A store with the default capacity of 100 000 live entries.
    pub fn new() -> (r: JtiStore)
        ensures
            r.wf(),
            r.view() == Seq::<(Seq<char>, i64)>::empty(),
            r.capacity() == 100000,
    {
        JtiStore::with_capacity(100000)
    }

    pub fn with_capacity(max_capacity: usize) -> (r: JtiStore)
        ensures
            r.wf(),
            r.view() == Seq::<(Seq<char>, i64)>::empty(),
            r.capacity() == max_capacity,
    {
        let r = JtiStore { entries: Vec::new(), max_capacity };
        proof {
            assert(r.view() =~= Seq::<(Seq<char>, i64)>::empty());
        }
        r
    }

    /// How many entries the store currently holds (live or not; dead entries
    /// linger only until the next insert's eviction pass).
    pub fn len(&self) -> (r: usize)
        ensures
            r == self.view().len(),
    {
        self.entries.len()
    }

    /// Evict every expired entry.
    fn evict(&mut self, now: i64)
        ensures
            final(self).view() == live(old(self).view(), now),
            final(self).max_capacity == old(self).max_capacity,
    {
        let n = self.entries.len();
        let mut kept: Vec<(String, i64)> = Vec::new();
        let mut i: usize = 0;
        while i < n
            invariant
                i <= n,
                n == self.entries@.len(),
                self.entries == old(self).entries,
                self.max_capacity == old(self).max_capacity,
                kept@.map_values(|e: (String, i64)| (e.0@, e.1)) == live(
                    old(self).view().take(i as int),
                    now,
                ),
            decreases n - i,
        {
            proof {
                assert(old(self).view().take(i as int + 1).drop_last() =~= old(self).view().take(
                    i as int,
                ));
                assert(old(self).view().take(i as int + 1).last() == old(self).view()[i as int]);
            }
            let e = (self.entries[i].0.clone(), self.entries[i].1);
            if e.1 > now {
                kept.push(e);
            }
            proof {
                assert(kept@.map_values(|e: (String, i64)| (e.0@, e.1)) =~= live(
                    old(self).view().take(i as int + 1),
                    now,
                ));
            }
            i = i + 1;
        }
        self.entries = kept;
        proof {
            assert(old(self).view().take(n as int) =~= old(self).view());
        }
    }

    /// Whether an entry with this id is present.
    fn holds(&self, jti: &String) -> (r: bool)
        ensures
            r == contains_jti(self.view(), jti@),
    {
        let n = self.entries.len();
        let mut i: usize = 0;
        while i < n
            invariant
                i <= n,
                n == self.entries@.len(),
                forall|k: int| 0 <= k < i ==> (#[trigger] self.view()[k]).0 != jti@,
            decreases n - i,
        {
            if self.entries[i].0 == *jti {
                proof {
                    assert(self.view()[i as int].0 == jti@);
                }
                return true;
            }
            i = i + 1;
        }
        proof {
            if contains_jti(self.view(), jti@) {
                let k = choose|k: int|
                    0 <= k < self.view().len() && (#[trigger] self.view()[k]).0 == jti@;
                assert(false);
            }
        }
        false
    }

    /// Single-use gate, at the instant `now`: evict expired entries, refuse
    /// at capacity, refuse replays, otherwise record the id. Exactly one of
    /// any set of attempts with the same live id can succeed, a full store of
    /// live entries never accepts or overwrites, and once every entry has
    /// expired an insert always succeeds again.
    pub fn check_and_insert_at(&mut self, jti: &str, exp: i64, now: i64) -> (r: Result<
        (),
        Error,
    >)
        requires
            old(self).wf(),
        ensures
            final(self).wf(),
            final(self).capacity() == old(self).capacity(),
            ({
                let evicted = live(old(self).view(), now);
                &&& (r matches Err(Error::ServiceUnavailable(_)) <==> evicted.len() >= old(
                    self,
                ).capacity())
                &&& evicted.len() < old(self).capacity() ==> ((r matches Err(
                    Error::ReplayDetected(_),
                )) <==> contains_jti(evicted, jti@))
                &&& (r matches Err(Error::ReplayDetected(j)) ==> j@ == jti@)
                &&& (r is Ok <==> evicted.len() < old(self).capacity() && !contains_jti(
                    evicted,
                    jti@,
                ))
                &&& r is Ok ==> final(self).view() == evicted.push((jti@, exp))
                &&& r is Err ==> final(self).view() == evicted
            }),
    {
        self.evict(now);
        proof {
            lemma_live_distinct(old(self).view(), now);
            lemma_live_len(old(self).view(), now);
        }
        if self.entries.len() >= self.max_capacity {
            return Err(Error::ServiceUnavailable("JTI store at capacity".to_owned()));
        }
        let key = jti.to_owned();
        if self.holds(&key) {
            return Err(Error::ReplayDetected(key));
        }
        let ghost before = self.view();
        self.entries.push((key, exp));
        proof {
            assert(self.view() =~= before.push((jti@, exp)));
            assert forall|i: int, k: int|
                0 <= i < k < self.view().len() implies (#[trigger] self.view()[i]).0 != (
            #[trigger] self.view()[k]).0 by {
                if k == self.view().len() - 1 {
                    if self.view()[i].0 == jti@ {
                        assert(before[i].0 == jti@);
                        assert(contains_jti(before, jti@));
                    }
                }
            }
        }
        Ok(())
    }

    /// Single-use gate at the current instant, by the process clock.
    pub fn check_and_insert(&mut self, jti: &str, exp: i64) -> (r: Result<(), Error>)
        requires
            old(self).wf(),
        ensures
            final(self).wf(),
            final(self).capacity() == old(self).capacity(),
            exists|now: i64|
                {
                    let evicted = #[trigger] live(old(self).view(), now);
                    &&& (r is Ok <==> evicted.len() < old(self).capacity() && !contains_jti(
                        evicted,
                        jti@,
                    ))
                    &&& r is Ok ==> final(self).view() == evicted.push((jti@, exp))
                    &&& r is Err ==> final(self).view() == evicted
                },
    {
        let now = now_unix();
        let r = self.check_and_insert_at(jti, exp, now);
        proof {
            let evicted = live(old(self).view(), now);
            assert({
                &&& (r is Ok <==> evicted.len() < old(self).capacity() && !contains_jti(
                    evicted,
                    jti@,
                ))
                &&& r is Ok ==> final(self).view() == evicted.push((jti@, exp))
                &&& r is Err ==> final(self).view() == evicted
            });
        }
        r
    }
}

} // verus!
