//! Event counters with a point-in-time snapshot. Counters saturate at the
//! type's maximum instead of wrapping.

use vstd::prelude::*;

verus! {

/// The mint and redeem pipelines' counters.
pub struct Metrics {
    pub tokens_minted: u64,
    pub tokens_verified: u64,
    pub tokens_rejected: u64,
    pub replays_blocked: u64,
    pub policy_denials: u64,
    pub oidc_failures: u64,
    pub rate_limited: u64,
    pub webauthn_registers: u64,
    pub webauthn_successes: u64,
    pub webauthn_failures: u64,
    pub webauthn_lockouts: u64,
}

/// An immutable view of the counters at one instant.
pub struct MetricsSnapshot {
    pub tokens_minted: u64,
    pub tokens_verified: u64,
    pub tokens_rejected: u64,
    pub replays_blocked: u64,
    pub policy_denials: u64,
    pub oidc_failures: u64,
    pub rate_limited: u64,
    pub webauthn_registers: u64,
    pub webauthn_successes: u64,
    pub webauthn_failures: u64,
    pub webauthn_lockouts: u64,
}

/// A counter step: up by one, saturating.
pub open spec fn bumped(v: u64) -> u64 {
    if v < u64::MAX {
        (v + 1) as u64
    } else {
        v
    }
}

fn bump(v: u64) -> (r: u64)
    ensures
        r == bumped(v),
{
    if v < u64::MAX {
        v + 1
    } else {
        v
    }
}

impl Metrics {
    /// All counters start at zero.
    pub fn new() -> (r: Metrics)
        ensures
            r.tokens_minted == 0,
            r.tokens_verified == 0,
            r.tokens_rejected == 0,
            r.replays_blocked == 0,
            r.policy_denials == 0,
            r.oidc_failures == 0,
            r.rate_limited == 0,
            r.webauthn_registers == 0,
            r.webauthn_successes == 0,
            r.webauthn_failures == 0,
            r.webauthn_lockouts == 0,
    {
        Metrics {
            tokens_minted: 0,
            tokens_verified: 0,
            tokens_rejected: 0,
            replays_blocked: 0,
            policy_denials: 0,
            oidc_failures: 0,
            rate_limited: 0,
            webauthn_registers: 0,
            webauthn_successes: 0,
            webauthn_failures: 0,
            webauthn_lockouts: 0,
        }
    }

    pub fn record_mint(&mut self)
        ensures
            final(self).tokens_minted == bumped(old(self).tokens_minted),
            final(self).tokens_verified == old(self).tokens_verified,
            final(self).tokens_rejected == old(self).tokens_rejected,
            final(self).replays_blocked == old(self).replays_blocked,
            final(self).policy_denials == old(self).policy_denials,
            final(self).oidc_failures == old(self).oidc_failures,
            final(self).rate_limited == old(self).rate_limited,
            final(self).webauthn_registers == old(self).webauthn_registers,
            final(self).webauthn_successes == old(self).webauthn_successes,
            final(self).webauthn_failures == old(self).webauthn_failures,
            final(self).webauthn_lockouts == old(self).webauthn_lockouts,
    {
        self.tokens_minted = bump(self.tokens_minted);
    }

    pub fn record_verify(&mut self)
        ensures
            final(self).tokens_verified == bumped(old(self).tokens_verified),
            final(self).tokens_minted == old(self).tokens_minted,
            final(self).tokens_rejected == old(self).tokens_rejected,
            final(self).replays_blocked == old(self).replays_blocked,
            final(self).policy_denials == old(self).policy_denials,
            final(self).oidc_failures == old(self).oidc_failures,
            final(self).rate_limited == old(self).rate_limited,
            final(self).webauthn_registers == old(self).webauthn_registers,
            final(self).webauthn_successes == old(self).webauthn_successes,
            final(self).webauthn_failures == old(self).webauthn_failures,
            final(self).webauthn_lockouts == old(self).webauthn_lockouts,
    {
        self.tokens_verified = bump(self.tokens_verified);
    }

    pub fn record_reject(&mut self)
        ensures
            final(self).tokens_rejected == bumped(old(self).tokens_rejected),
            final(self).tokens_minted == old(self).tokens_minted,
            final(self).tokens_verified == old(self).tokens_verified,
            final(self).replays_blocked == old(self).replays_blocked,
            final(self).policy_denials == old(self).policy_denials,
            final(self).oidc_failures == old(self).oidc_failures,
            final(self).rate_limited == old(self).rate_limited,
            final(self).webauthn_registers == old(self).webauthn_registers,
            final(self).webauthn_successes == old(self).webauthn_successes,
            final(self).webauthn_failures == old(self).webauthn_failures,
            final(self).webauthn_lockouts == old(self).webauthn_lockouts,
    {
        self.tokens_rejected = bump(self.tokens_rejected);
    }

    pub fn record_replay(&mut self)
        ensures
            final(self).replays_blocked == bumped(old(self).replays_blocked),
            final(self).tokens_minted == old(self).tokens_minted,
            final(self).tokens_verified == old(self).tokens_verified,
            final(self).tokens_rejected == old(self).tokens_rejected,
            final(self).policy_denials == old(self).policy_denials,
            final(self).oidc_failures == old(self).oidc_failures,
            final(self).rate_limited == old(self).rate_limited,
            final(self).webauthn_registers == old(self).webauthn_registers,
            final(self).webauthn_successes == old(self).webauthn_successes,
            final(self).webauthn_failures == old(self).webauthn_failures,
            final(self).webauthn_lockouts == old(self).webauthn_lockouts,
    {
        self.replays_blocked = bump(self.replays_blocked);
    }

    pub fn record_policy_denial(&mut self)
        ensures
            final(self).policy_denials == bumped(old(self).policy_denials),
            final(self).tokens_minted == old(self).tokens_minted,
            final(self).tokens_verified == old(self).tokens_verified,
            final(self).tokens_rejected == old(self).tokens_rejected,
            final(self).replays_blocked == old(self).replays_blocked,
            final(self).oidc_failures == old(self).oidc_failures,
            final(self).rate_limited == old(self).rate_limited,
            final(self).webauthn_registers == old(self).webauthn_registers,
            final(self).webauthn_successes == old(self).webauthn_successes,
            final(self).webauthn_failures == old(self).webauthn_failures,
            final(self).webauthn_lockouts == old(self).webauthn_lockouts,
    {
        self.policy_denials = bump(self.policy_denials);
    }

    pub fn record_oidc_failure(&mut self)
        ensures
            final(self).oidc_failures == bumped(old(self).oidc_failures),
            final(self).tokens_minted == old(self).tokens_minted,
            final(self).tokens_verified == old(self).tokens_verified,
            final(self).tokens_rejected == old(self).tokens_rejected,
            final(self).replays_blocked == old(self).replays_blocked,
            final(self).policy_denials == old(self).policy_denials,
            final(self).rate_limited == old(self).rate_limited,
            final(self).webauthn_registers == old(self).webauthn_registers,
            final(self).webauthn_successes == old(self).webauthn_successes,
            final(self).webauthn_failures == old(self).webauthn_failures,
            final(self).webauthn_lockouts == old(self).webauthn_lockouts,
    {
        self.oidc_failures = bump(self.oidc_failures);
    }

    pub fn record_rate_limited(&mut self)
        ensures
            final(self).rate_limited == bumped(old(self).rate_limited),
            final(self).tokens_minted == old(self).tokens_minted,
            final(self).tokens_verified == old(self).tokens_verified,
            final(self).tokens_rejected == old(self).tokens_rejected,
            final(self).replays_blocked == old(self).replays_blocked,
            final(self).policy_denials == old(self).policy_denials,
            final(self).oidc_failures == old(self).oidc_failures,
            final(self).webauthn_registers == old(self).webauthn_registers,
            final(self).webauthn_successes == old(self).webauthn_successes,
            final(self).webauthn_failures == old(self).webauthn_failures,
            final(self).webauthn_lockouts == old(self).webauthn_lockouts,
    {
        self.rate_limited = bump(self.rate_limited);
    }

    pub fn record_webauthn_register(&mut self)
        ensures
            final(self).webauthn_registers == bumped(old(self).webauthn_registers),
            final(self).tokens_minted == old(self).tokens_minted,
            final(self).tokens_verified == old(self).tokens_verified,
            final(self).tokens_rejected == old(self).tokens_rejected,
            final(self).replays_blocked == old(self).replays_blocked,
            final(self).policy_denials == old(self).policy_denials,
            final(self).oidc_failures == old(self).oidc_failures,
            final(self).rate_limited == old(self).rate_limited,
            final(self).webauthn_successes == old(self).webauthn_successes,
            final(self).webauthn_failures == old(self).webauthn_failures,
            final(self).webauthn_lockouts == old(self).webauthn_lockouts,
    {
        self.webauthn_registers = bump(self.webauthn_registers);
    }

    pub fn record_webauthn_success(&mut self)
        ensures
            final(self).webauthn_successes == bumped(old(self).webauthn_successes),
            final(self).tokens_minted == old(self).tokens_minted,
            final(self).tokens_verified == old(self).tokens_verified,
            final(self).tokens_rejected == old(self).tokens_rejected,
            final(self).replays_blocked == old(self).replays_blocked,
            final(self).policy_denials == old(self).policy_denials,
            final(self).oidc_failures == old(self).oidc_failures,
            final(self).rate_limited == old(self).rate_limited,
            final(self).webauthn_registers == old(self).webauthn_registers,
            final(self).webauthn_failures == old(self).webauthn_failures,
            final(self).webauthn_lockouts == old(self).webauthn_lockouts,
    {
        self.webauthn_successes = bump(self.webauthn_successes);
    }

    pub fn record_webauthn_failure(&mut self)
        ensures
            final(self).webauthn_failures == bumped(old(self).webauthn_failures),
            final(self).tokens_minted == old(self).tokens_minted,
            final(self).tokens_verified == old(self).tokens_verified,
            final(self).tokens_rejected == old(self).tokens_rejected,
            final(self).replays_blocked == old(self).replays_blocked,
            final(self).policy_denials == old(self).policy_denials,
            final(self).oidc_failures == old(self).oidc_failures,
            final(self).rate_limited == old(self).rate_limited,
            final(self).webauthn_registers == old(self).webauthn_registers,
            final(self).webauthn_successes == old(self).webauthn_successes,
            final(self).webauthn_lockouts == old(self).webauthn_lockouts,
    {
        self.webauthn_failures = bump(self.webauthn_failures);
    }

    pub fn record_webauthn_lockout(&mut self)
        ensures
            final(self).webauthn_lockouts == bumped(old(self).webauthn_lockouts),
            final(self).tokens_minted == old(self).tokens_minted,
            final(self).tokens_verified == old(self).tokens_verified,
            final(self).tokens_rejected == old(self).tokens_rejected,
            final(self).replays_blocked == old(self).replays_blocked,
            final(self).policy_denials == old(self).policy_denials,
            final(self).oidc_failures == old(self).oidc_failures,
            final(self).rate_limited == old(self).rate_limited,
            final(self).webauthn_registers == old(self).webauthn_registers,
            final(self).webauthn_successes == old(self).webauthn_successes,
            final(self).webauthn_failures == old(self).webauthn_failures,
    {
        self.webauthn_lockouts = bump(self.webauthn_lockouts);
    }

    /// Read every counter at once.
    pub fn snapshot(&self) -> (r: MetricsSnapshot)
        ensures
            r.tokens_minted == self.tokens_minted,
            r.tokens_verified == self.tokens_verified,
            r.tokens_rejected == self.tokens_rejected,
            r.replays_blocked == self.replays_blocked,
            r.policy_denials == self.policy_denials,
            r.oidc_failures == self.oidc_failures,
            r.rate_limited == self.rate_limited,
            r.webauthn_registers == self.webauthn_registers,
            r.webauthn_successes == self.webauthn_successes,
            r.webauthn_failures == self.webauthn_failures,
            r.webauthn_lockouts == self.webauthn_lockouts,
    {
        MetricsSnapshot {
            tokens_minted: self.tokens_minted,
            tokens_verified: self.tokens_verified,
            tokens_rejected: self.tokens_rejected,
            replays_blocked: self.replays_blocked,
            policy_denials: self.policy_denials,
            oidc_failures: self.oidc_failures,
            rate_limited: self.rate_limited,
            webauthn_registers: self.webauthn_registers,
            webauthn_successes: self.webauthn_successes,
            webauthn_failures: self.webauthn_failures,
            webauthn_lockouts: self.webauthn_lockouts,
        }
    }
}

} // verus!
