//! A stake-backed resolver network: participants lock collateral
//! ("self-stake"), third parties delegate further stake behind them, and a
//! resolver is *active* — eligible to perform trust-sensitive work — exactly
//! while its unlocked self-stake and delegated backing clear configured
//! thresholds and its externally maintained credibility score is high enough.
//!
//! Exit paths are time-locked: a delegator leaves in two phases (request,
//! then claim once the undelegation window has elapsed), and penalized
//! self-stake stays frozen until its own lock expires.  Every mutating
//! operation either fully applies — state change, eligibility recomputation,
//! notification — or fails without touching anything.

pub mod builder;
pub mod config;
pub mod events;
pub mod records;
pub mod lookups;
pub mod network;
pub mod sums;
