//! AgentMint: short-lived, signed capability tokens attesting that a human
//! principal authorized a named action, with single-use redemption gated by
//! replay protection, expiry, and per-action policy limits.

pub mod ascii;
pub mod audit;
pub mod b64;
pub mod claims;
pub mod clock;
pub mod error;
pub mod jti;
pub mod mint;
pub mod oidc;
pub mod payload;
pub mod policy;
pub mod ratelimit;
pub mod redeem;
pub mod signing;
pub mod telemetry;
pub mod timefmt;
pub mod token;
pub mod webauthn;
