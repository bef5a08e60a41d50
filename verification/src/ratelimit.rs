//! Sliding-window admission control at three tiers: global per second,
//! per-IP per minute, per-user per minute. Windows are coarse counters that
//! reset on the first request after the window elapses.

use vstd::prelude::*;
use vstd::string::StringSliceAdditionalSpecFns;
use crate::clock::now_unix;

verus! {

/// A `(count, window_start)` counter as seconds-based model values.
pub type CounterV = (u32, i64);

/// Keyed counters in insertion order.
pub type CounterSeq = Seq<(Seq<char>, CounterV)>;

/// The model of an exec counter table.
pub open spec fn counters_view(v: Seq<(String, (u32, i64))>) -> CounterSeq {
    v.map_values(|e: (String, (u32, i64))| (e.0@, e.1))
}

pub open spec fn rl_contains(s: CounterSeq, k: Seq<char>) -> bool {
    exists|i: int| 0 <= i < s.len() && (#[trigger] s[i]).0 == k
}

pub open spec fn rl_distinct(s: CounterSeq) -> bool {
    forall|i: int, j: int| 0 <= i < j < s.len() ==> (#[trigger] s[i]).0 != (#[trigger] s[j]).0
}

/// First-match read of a key's counter.
pub open spec fn entry_of(s: CounterSeq, k: Seq<char>) -> Option<CounterV>
    decreases s.len(),
{
    if s.len() == 0 {
        None
    } else if s[0].0 == k {
        Some(s[0].1)
    } else {
        entry_of(s.drop_first(), k)
    }
}

/// Write a key's counter: replace the first match, or append.
pub open spec fn set_entry(s: CounterSeq, k: Seq<char>, v: CounterV) -> CounterSeq
    decreases s.len(),
{
    if s.len() == 0 {
        seq![(k, v)]
    } else if s[0].0 == k {
        seq![(k, v)] + s.drop_first()
    } else {
        seq![s[0]] + set_entry(s.drop_first(), k, v)
    }
}

/// One admission step of a window counter: reset when the window has
/// elapsed, then count the request (saturating).
pub open spec fn bumped_counter(c: CounterV, window: i64, now: i64) -> CounterV {
    if now - c.1 > window {
        (1u32, now)
    } else if c.0 < u32::MAX {
        ((c.0 + 1) as u32, c.1)
    } else {
        c
    }
}

/// The counters whose window start is still fresh at the cutoff.
pub open spec fn fresh_counters(s: CounterSeq, cutoff: int) -> CounterSeq
    decreases s.len(),
{
    if s.len() == 0 {
        Seq::empty()
    } else if s.last().1.1 > cutoff {
        fresh_counters(s.drop_last(), cutoff) + seq![s.last()]
    } else {
        fresh_counters(s.drop_last(), cutoff)
    }
}

proof fn lemma_fresh_contains(s: CounterSeq, cutoff: int, k: Seq<char>)
    ensures
        rl_contains(fresh_counters(s, cutoff), k) ==> rl_contains(s, k),
    decreases s.len(),
{
    if s.len() > 0 {
        lemma_fresh_contains(s.drop_last(), cutoff, k);
        let f = fresh_counters(s, cutoff);
        let fp = fresh_counters(s.drop_last(), cutoff);
        if rl_contains(f, k) {
            let i = choose|i: int| 0 <= i < f.len() && (#[trigger] f[i]).0 == k;
            if s.last().1.1 > cutoff && i == f.len() - 1 {
                assert(s[s.len() - 1].0 == k);
            } else {
                assert(fp[i].0 == k);
                let j = choose|j: int|
                    0 <= j < s.drop_last().len() && (#[trigger] s.drop_last()[j]).0 == k;
                assert(s[j].0 == k);
            }
        }
    }
}

proof fn lemma_fresh_distinct(s: CounterSeq, cutoff: int)
    requires
        rl_distinct(s),
    ensures
        rl_distinct(fresh_counters(s, cutoff)),
    decreases s.len(),
{
    if s.len() > 0 {
        assert(rl_distinct(s.drop_last())) by {
            assert forall|i: int, j: int|
                0 <= i < j < s.drop_last().len() implies (#[trigger] s.drop_last()[i]).0 != (
            #[trigger] s.drop_last()[j]).0 by {
                assert(s[i].0 != s[j].0);
            }
        }
        lemma_fresh_distinct(s.drop_last(), cutoff);
        if s.last().1.1 > cutoff {
            let fp = fresh_counters(s.drop_last(), cutoff);
            assert(!rl_contains(fp, s.last().0)) by {
                lemma_fresh_contains(s.drop_last(), cutoff, s.last().0);
                if rl_contains(s.drop_last(), s.last().0) {
                    let j = choose|j: int|
                        0 <= j < s.drop_last().len() && (#[trigger] s.drop_last()[j]).0
                            == s.last().0;
                    assert(s[j].0 == s[s.len() - 1].0);
                }
            }
            assert forall|i: int, j: int|
                0 <= i < j < fresh_counters(s, cutoff).len() implies (#[trigger] fresh_counters(
                s,
                cutoff,
            )[i]).0 != (#[trigger] fresh_counters(s, cutoff)[j]).0 by {
                if j < fp.len() {
                } else {
                    if fresh_counters(s, cutoff)[i].0 == s.last().0 {
                        assert(fp[i].0 == s.last().0);
                        assert(rl_contains(fp, s.last().0));
                    }
                }
            }
        }
    }
}

proof fn lemma_set_entry_distinct(s: CounterSeq, k: Seq<char>, v: CounterV)
    requires
        rl_distinct(s),
    ensures
        rl_distinct(set_entry(s, k, v)),
    decreases s.len(),
{
    if s.len() == 0 {
    } else if s[0].0 == k {
        assert(set_entry(s, k, v) =~= seq![(k, v)] + s.drop_first());
        assert forall|i: int, j: int|
            0 <= i < j < set_entry(s, k, v).len() implies (#[trigger] set_entry(s, k, v)[i]).0
            != (#[trigger] set_entry(s, k, v)[j]).0 by {
            if i == 0 {
                assert(set_entry(s, k, v)[j] == s[j]);
                assert(s[0].0 != s[j].0);
            } else {
                assert(set_entry(s, k, v)[i] == s[i]);
                assert(set_entry(s, k, v)[j] == s[j]);
            }
        }
    } else {
        assert(rl_distinct(s.drop_first())) by {
            assert forall|i: int, j: int|
                0 <= i < j < s.drop_first().len() implies (#[trigger] s.drop_first()[i]).0 != (
            #[trigger] s.drop_first()[j]).0 by {
                assert(s[i + 1].0 != s[j + 1].0);
            }
        }
        lemma_set_entry_distinct(s.drop_first(), k, v);
        assert forall|i: int, j: int|
            0 <= i < j < set_entry(s, k, v).len() implies (#[trigger] set_entry(s, k, v)[i]).0
            != (#[trigger] set_entry(s, k, v)[j]).0 by {
            let rest = set_entry(s.drop_first(), k, v);
            if i == 0 {
                assert(set_entry(s, k, v)[j] == rest[j - 1]);
                lemma_set_entry_keys(s.drop_first(), k, v, j - 1);
            } else {
                assert(set_entry(s, k, v)[i] == rest[i - 1]);
                assert(set_entry(s, k, v)[j] == rest[j - 1]);
            }
        }
    }
}

/// Every key of `set_entry(s, k, v)` is `k` or a key of `s`.
proof fn lemma_set_entry_keys(s: CounterSeq, k: Seq<char>, v: CounterV, i: int)
    requires
        0 <= i < set_entry(s, k, v).len(),
    ensures
        set_entry(s, k, v)[i].0 == k || rl_contains(s, set_entry(s, k, v)[i].0),
    decreases s.len(),
{
    if s.len() == 0 {
    } else if s[0].0 == k {
        if i > 0 {
            assert(set_entry(s, k, v)[i] == s[i]);
        }
    } else {
        if i == 0 {
            assert(set_entry(s, k, v)[0] == s[0]);
        } else {
            lemma_set_entry_keys(s.drop_first(), k, v, i - 1);
            assert(set_entry(s, k, v)[i] == set_entry(s.drop_first(), k, v)[i - 1]);
            if rl_contains(s.drop_first(), set_entry(s.drop_first(), k, v)[i - 1].0) {
                let j = choose|j: int|
                    0 <= j < s.drop_first().len() && (#[trigger] s.drop_first()[j]).0
                        == set_entry(s.drop_first(), k, v)[i - 1].0;
                assert(s[j + 1].0 == set_entry(s, k, v)[i].0);
            }
        }
    }
}

/// Which admission tier refused a request.
#[derive(Debug)]
pub enum RateLimitError {
    Global,
    PerIp { limit: u32, window_secs: u64 },
    PerUser { limit: u32, window_secs: u64 },
}

impl RateLimitError {
    /// A log-friendly description of the refusal.
    pub fn message(&self) -> String {
        match self {
            RateLimitError::Global => "global rate limit exceeded".to_owned(),
            RateLimitError::PerIp { .. } => "per-ip rate limit exceeded".to_owned(),
            RateLimitError::PerUser { .. } => "per-user rate limit exceeded".to_owned(),
        }
    }
}

/// The three tier limits.
pub struct RateLimitConfig {
    pub global_per_sec: u32,
    pub per_ip_per_min: u32,
    pub per_user_per_min: u32,
}

impl Default for RateLimitConfig {
    /// The default tiers: 1000/s globally, 100/min per IP, 20/min per user.
    fn default() -> (r: RateLimitConfig)
        ensures
            r.global_per_sec == 1000,
            r.per_ip_per_min == 100,
            r.per_user_per_min == 20,
    {
        RateLimitConfig { global_per_sec: 1000, per_ip_per_min: 100, per_user_per_min: 20 }
    }
}

/// The cutoff for the periodic cleanup at the instant `now`: one window
/// plus a minute in the past, clamped at the type's minimum.
pub open spec fn cleanup_cutoff(now: i64) -> int {
    if now - 120 >= i64::MIN {
        now - 120
    } else {
        i64::MIN as int
    }
}

/// One admission step of a keyed one-minute counter table: the updated
/// table and the stepped count the limit is compared against.
pub open spec fn minute_step(table: CounterSeq, key: Seq<char>, now: i64) -> (CounterSeq, u32) {
    let prev = match entry_of(table, key) {
        None => (0u32, now),
        Some(c) => c,
    };
    let nc = bumped_counter(prev, 60, now);
    (set_entry(table, key, nc), nc.0)
}

/// A counter table after the periodic cleanup that `now` triggers (or not).
pub open spec fn cleaned(table: CounterSeq, mark: i64, now: i64) -> CounterSeq {
    if now - mark > 300 {
        fresh_counters(table, cleanup_cutoff(now))
    } else {
        table
    }
}

/// The admission controller.
pub struct RateLimiter {
    config: RateLimitConfig,
    global_count: (u32, i64),
    ip_counts: Vec<(String, (u32, i64))>,
    user_counts: Vec<(String, (u32, i64))>,
    last_cleanup: i64,
}

impl RateLimiter {
    pub closed spec fn ips(&self) -> CounterSeq {
        counters_view(self.ip_counts@)
    }

    pub closed spec fn users(&self) -> CounterSeq {
        counters_view(self.user_counts@)
    }

    pub closed spec fn global_counter(&self) -> CounterV {
        self.global_count
    }

    pub closed spec fn cfg(&self) -> (u32, u32, u32) {
        (self.config.global_per_sec, self.config.per_ip_per_min, self.config.per_user_per_min)
    }

    pub closed spec fn wf(&self) -> bool {
        rl_distinct(self.ips()) && rl_distinct(self.users())
    }

    pub fn new(config: RateLimitConfig) -> (r: RateLimiter)
        ensures
            r.wf(),
            r.cfg() == (config.global_per_sec, config.per_ip_per_min, config.per_user_per_min),
            r.ips() == Seq::<(Seq<char>, CounterV)>::empty(),
            r.users() == Seq::<(Seq<char>, CounterV)>::empty(),
            r.global_counter().0 == 0,
    {
        let now = now_unix();
        let r = RateLimiter {
            config,
            global_count: (0, now),
            ip_counts: Vec::new(),
            user_counts: Vec::new(),
            last_cleanup: now,
        };
        proof {
            assert(r.ips() =~= Seq::<(Seq<char>, CounterV)>::empty());
            assert(r.users() =~= Seq::<(Seq<char>, CounterV)>::empty());
        }
        r
    }

    /// Update a keyed counter through one admission step, and report the
    /// stepped count.
    fn bump_entry(counts: &mut Vec<(String, (u32, i64))>, key: &str, window: i64, now: i64) -> (r:
        u32)
        requires
            rl_distinct(
                counters_view(old(counts)@),
            ),
        ensures
            ({
                let view = counters_view(old(counts)@);
                let prev = match entry_of(view, key@) {
                    None => (0u32, now),
                    Some(c) => c,
                };
                let nc = bumped_counter(prev, window, now);
                &&& r == nc.0
                &&& counters_view(final(counts)@) == set_entry(
                    view,
                    key@,
                    nc,
                )
                &&& rl_distinct(counters_view(final(counts)@))
            }),
    {
        let ghost view = counters_view(old(counts)@);
        let n = counts.len();
        let mut i: usize = 0;
        proof {
            assert(view.skip(0) =~= view);
        }
        loop
            invariant
                i <= n,
                n == counts@.len(),
                counts == old(counts),
                view == counters_view(counts@),
                rl_distinct(view),
                entry_of(view, key@) == entry_of(view.skip(i as int), key@),
                forall|k: int| 0 <= k < i ==> (#[trigger] view[k]).0 != key@,
                set_entry(view, key@, bumped_counter(
                    match entry_of(view, key@) {
                        None => (0u32, now),
                        Some(c) => c,
                    },
                    window,
                    now,
                )) == view.take(i as int) + set_entry(
                    view.skip(i as int),
                    key@,
                    bumped_counter(
                        match entry_of(view, key@) {
                            None => (0u32, now),
                            Some(c) => c,
                        },
                        window,
                        now,
                    ),
                ),
            ensures
                i == n,
                counts == old(counts),
                view == counters_view(counts@),
                rl_distinct(view),
                n == counts@.len(),
                entry_of(view, key@) == entry_of(view.skip(n as int), key@),
                set_entry(view, key@, bumped_counter(
                    match entry_of(view, key@) {
                        None => (0u32, now),
                        Some(c) => c,
                    },
                    window,
                    now,
                )) == view.take(n as int) + set_entry(
                    view.skip(n as int),
                    key@,
                    bumped_counter(
                        match entry_of(view, key@) {
                            None => (0u32, now),
                            Some(c) => c,
                        },
                        window,
                        now,
                    ),
                ),
            decreases n - i,
        {
            proof {
                let nc = bumped_counter(
                    match entry_of(view, key@) {
                        None => (0u32, now),
                        Some(c) => c,
                    },
                    window,
                    now,
                );
                if i < n {
                    assert(view.skip(i as int)[0] == view[i as int]);
                    if view[i as int].0 != key@ {
                        assert(view.skip(i as int).drop_first() =~= view.skip(i as int + 1));
                        assert(set_entry(view.skip(i as int), key@, nc) == seq![
                            view[i as int],
                        ] + set_entry(view.skip(i as int + 1), key@, nc));
                        assert(view.take(i as int) + set_entry(view.skip(i as int), key@, nc)
                            =~= view.take(i as int + 1) + set_entry(
                            view.skip(i as int + 1),
                            key@,
                            nc,
                        ));
                    }
                }
            }
            if i == n {
                break ;
            }
            if bytes_eq_str(counts[i].0.as_str(), key) {
                let prev = counts[i].1;
                let nc: (u32, i64) = if (now as i128) - (prev.1 as i128) > (window as i128) {
                    (1, now)
                } else if prev.0 < u32::MAX {
                    (prev.0 + 1, prev.1)
                } else {
                    prev
                };
                let k0 = counts[i].0.clone();
                counts[i] = (k0, nc);
                proof {
                    assert(view.skip(i as int)[0] == view[i as int]);
                    assert(entry_of(view, key@) == Some(view[i as int].1));
                    assert(nc == bumped_counter(view[i as int].1, window, now));
                    assert(set_entry(view.skip(i as int), key@, nc) == seq![(key@, nc)]
                        + view.skip(i as int).drop_first());
                    assert(counters_view(counts@) =~= view.take(i as int) + (seq![(key@, nc)]
                        + view.skip(i as int).drop_first()));
                    lemma_set_entry_distinct(view, key@, nc);
                }
                return nc.0;
            }
            i = i + 1;
        }
        let nc: (u32, i64) = (1, now);
        counts.push((key.to_owned(), nc));
        proof {
            assert(entry_of(view.skip(n as int), key@) == None::<CounterV>) by {
                assert(view.skip(n as int) =~= Seq::<(Seq<char>, CounterV)>::empty());
            }
            assert(bumped_counter((0u32, now), window, now) == (1u32, now));
            assert(set_entry(view.skip(n as int), key@, (1u32, now)) == seq![(key@, (1u32, now))]);
            assert(counters_view(counts@) =~= view.take(n as int) + seq![(key@, (1u32, now))]);
            lemma_set_entry_distinct(view, key@, (1u32, now));
        }
        1
    }

    /// Global-then-per-IP admission at the instant `now`. The global window
    /// is one second; the per-IP window is one minute. A refusal names the
    /// tier that was exceeded, and a refused tier does not advance the
    /// later tier's counter.
    pub fn check_ip_at(&mut self, ip: &str, now: i64) -> (r: Result<(), RateLimitError>)
        requires
            old(self).wf(),
        ensures
            final(self).wf(),
            final(self).cfg() == old(self).cfg(),
            final(self).users() == old(self).users(),
            ({
                let g = bumped_counter(old(self).global_counter(), 1, now);
                &&& final(self).global_counter() == g
                &&& (r matches Err(RateLimitError::Global) <==> g.0 > old(self).cfg().0)
                &&& (g.0 > old(self).cfg().0 ==> final(self).ips() == old(self).ips())
                &&& (g.0 <= old(self).cfg().0 ==> {
                    let prev = match entry_of(old(self).ips(), ip@) {
                        None => (0u32, now),
                        Some(c) => c,
                    };
                    let nc = bumped_counter(prev, 60, now);
                    &&& final(self).ips() == set_entry(old(self).ips(), ip@, nc)
                    &&& (r is Ok <==> nc.0 <= old(self).cfg().1)
                    &&& (r is Err ==> (r matches Err(
                        RateLimitError::PerIp { limit, window_secs },
                    ) && limit == old(self).cfg().1 && window_secs == 60))
                })
            }),
    {
        let g = self.global_count;
        let ng: (u32, i64) = if (now as i128) - (g.1 as i128) > 1 {
            (1, now)
        } else if g.0 < u32::MAX {
            (g.0 + 1, g.1)
        } else {
            g
        };
        self.global_count = ng;
        if ng.0 > self.config.global_per_sec {
            return Err(RateLimitError::Global);
        }
        let c = Self::bump_entry(&mut self.ip_counts, ip, 60, now);
        if c > self.config.per_ip_per_min {
            return Err(
                RateLimitError::PerIp { limit: self.config.per_ip_per_min, window_secs: 60 },
            );
        }
        Ok(())
    }

    /// Per-user admission at the instant `now`, over a one-minute window.
    pub fn check_user_at(&mut self, user_id: &str, now: i64) -> (r: Result<(), RateLimitError>)
        requires
            old(self).wf(),
        ensures
            final(self).wf(),
            final(self).cfg() == old(self).cfg(),
            final(self).ips() == old(self).ips(),
            final(self).global_counter() == old(self).global_counter(),
            ({
                let prev = match entry_of(old(self).users(), user_id@) {
                    None => (0u32, now),
                    Some(c) => c,
                };
                let nc = bumped_counter(prev, 60, now);
                &&& final(self).users() == set_entry(old(self).users(), user_id@, nc)
                &&& (r is Ok <==> nc.0 <= old(self).cfg().2)
                &&& (r is Err ==> (r matches Err(
                    RateLimitError::PerUser { limit, window_secs },
                ) && limit == old(self).cfg().2 && window_secs == 60))
            }),
    {
        let c = Self::bump_entry(&mut self.user_counts, user_id, 60, now);
        if c > self.config.per_user_per_min {
            return Err(
                RateLimitError::PerUser { limit: self.config.per_user_per_min, window_secs: 60 },
            );
        }
        Ok(())
    }

    /// Evict counters whose window start has aged past a window plus a
    /// minute, at most once per five minutes.
    pub fn maybe_cleanup(&mut self, now: i64)
        requires
            old(self).wf(),
        ensures
            final(self).wf(),
            final(self).cfg() == old(self).cfg(),
            final(self).global_counter() == old(self).global_counter(),
            now - old(self).cleanup_mark() > 300 ==> final(self).ips() == fresh_counters(
                old(self).ips(),
                cleanup_cutoff(now),
            ) && final(self).users() == fresh_counters(old(self).users(), cleanup_cutoff(now))
                && final(self).cleanup_mark() == now,
            now - old(self).cleanup_mark() <= 300 ==> final(self).ips() == old(self).ips()
                && final(self).users() == old(self).users() && final(self).cleanup_mark() == old(
                self,
            ).cleanup_mark(),
    {
        if (now as i128) - (self.last_cleanup as i128) > 300 {
            let cutoff: i64 = if now >= i64::MIN + 120 {
                now - 120
            } else {
                i64::MIN
            };
            Self::retain_fresh(&mut self.ip_counts, cutoff);
            Self::retain_fresh(&mut self.user_counts, cutoff);
            self.last_cleanup = now;
            proof {
                assert(cutoff as int == cleanup_cutoff(now));
                lemma_fresh_distinct(old(self).ips(), cutoff as int);
                lemma_fresh_distinct(old(self).users(), cutoff as int);
            }
        }
    }

    pub closed spec fn cleanup_mark(&self) -> i64 {
        self.last_cleanup
    }

    fn retain_fresh(counts: &mut Vec<(String, (u32, i64))>, cutoff: i64)
        ensures
            counters_view(final(counts)@) == fresh_counters(
                counters_view(old(counts)@),
                cutoff as int,
            ),
    {
        let ghost view = counters_view(old(counts)@);
        let n = counts.len();
        let mut kept: Vec<(String, (u32, i64))> = Vec::new();
        let mut i: usize = 0;
        while i < n
            invariant
                i <= n,
                n == counts@.len(),
                counts == old(counts),
                view == counters_view(counts@),
                counters_view(kept@) == fresh_counters(
                    view.take(i as int),
                    cutoff as int,
                ),
            decreases n - i,
        {
            proof {
                assert(view.take(i as int + 1).drop_last() =~= view.take(i as int));
                assert(view.take(i as int + 1).last() == view[i as int]);
            }
            let e = (counts[i].0.clone(), counts[i].1);
            if e.1.1 > cutoff {
                kept.push(e);
            }
            proof {
                assert(counters_view(kept@) =~= fresh_counters(
                    view.take(i as int + 1),
                    cutoff as int,
                ));
            }
            i = i + 1;
        }
        *counts = kept;
        proof {
            assert(view.take(n as int) =~= view);
        }
    }

    /// Global-then-per-IP admission now, by the process clock, with the
    /// periodic cleanup pass. Whatever instant the clock returned, the
    /// outcome is one global-then-per-IP admission step at that instant.
    pub fn check_ip(&mut self, ip: &str) -> (r: Result<(), RateLimitError>)
        requires
            old(self).wf(),
        ensures
            final(self).wf(),
            final(self).cfg() == old(self).cfg(),
            exists|now: i64|
                {
                    let g = #[trigger] bumped_counter(old(self).global_counter(), 1, now);
                    &&& final(self).global_counter() == g
                    &&& (r matches Err(RateLimitError::Global) <==> g.0 > old(self).cfg().0)
                    &&& final(self).users() == cleaned(
                        old(self).users(),
                        old(self).cleanup_mark(),
                        now,
                    )
                    &&& (g.0 > old(self).cfg().0 ==> final(self).ips() == cleaned(
                        old(self).ips(),
                        old(self).cleanup_mark(),
                        now,
                    ))
                    &&& (g.0 <= old(self).cfg().0 ==> {
                        let s = minute_step(
                            cleaned(old(self).ips(), old(self).cleanup_mark(), now),
                            ip@,
                            now,
                        );
                        &&& final(self).ips() == s.0
                        &&& (r is Ok <==> s.1 <= old(self).cfg().1)
                        &&& (r is Err ==> (r matches Err(
                            RateLimitError::PerIp { limit, window_secs },
                        ) && limit == old(self).cfg().1 && window_secs == 60))
                    })
                },
    {
        let now = now_unix();
        self.maybe_cleanup(now);
        let r = self.check_ip_at(ip, now);
        proof {
            let g = bumped_counter(old(self).global_counter(), 1, now);
            assert(final(self).global_counter() == g);
        }
        r
    }

    /// Per-user admission now, by the process clock. Whatever instant the
    /// clock returned, the outcome is one per-user admission step at it.
    pub fn check_user(&mut self, user_id: &str) -> (r: Result<(), RateLimitError>)
        requires
            old(self).wf(),
        ensures
            final(self).wf(),
            final(self).cfg() == old(self).cfg(),
            final(self).ips() == old(self).ips(),
            final(self).global_counter() == old(self).global_counter(),
            exists|now: i64|
                {
                    let s = #[trigger] minute_step(old(self).users(), user_id@, now);
                    &&& final(self).users() == s.0
                    &&& (r is Ok <==> s.1 <= old(self).cfg().2)
                    &&& (r is Err ==> (r matches Err(
                        RateLimitError::PerUser { limit, window_secs },
                    ) && limit == old(self).cfg().2 && window_secs == 60))
                },
    {
        let now = now_unix();
        let r = self.check_user_at(user_id, now);
        proof {
            let s = minute_step(old(self).users(), user_id@, now);
            assert(final(self).users() == s.0);
        }
        r
    }

    /// How many per-IP and per-user counters are held.
    pub fn stats(&self) -> (r: (usize, usize))
        ensures
            r.0 == self.ips().len(),
            r.1 == self.users().len(),
    {
        (self.ip_counts.len(), self.user_counts.len())
    }
}

/// Character-for-character equality of two string slices.
fn bytes_eq_str(a: &str, b: &str) -> (r: bool)
    ensures
        r == (a@ == b@),
{
    let ab = a.as_bytes();
    let bb = b.as_bytes();
    let n = ab.len();
    if bb.len() != n {
        proof {
            vstd::utf8::encode_utf8_decode_utf8(a@);
            vstd::utf8::encode_utf8_decode_utf8(b@);
        }
        return false;
    }
    let mut i: usize = 0;
    while i < n
        invariant
            i <= n,
            n == ab@.len() == bb@.len(),
            ab@ == a.spec_bytes(),
            bb@ == b.spec_bytes(),
            forall|k: int| 0 <= k < i ==> ab@[k] == bb@[k],
        decreases n - i,
    {
        if ab[i] != bb[i] {
            proof {
                vstd::utf8::encode_utf8_decode_utf8(a@);
                vstd::utf8::encode_utf8_decode_utf8(b@);
            }
            return false;
        }
        i = i + 1;
    }
    proof {
        assert(a.spec_bytes() =~= b.spec_bytes());
        vstd::utf8::encode_utf8_decode_utf8(a@);
        vstd::utf8::encode_utf8_decode_utf8(b@);
    }
    true
}

} // verus!
