//! Deployment-time configuration of the resolver network.

use vstd::prelude::*;

verus! {

/// Constants fixed at deployment; never mutated at runtime.
#[derive(Clone, Copy, PartialEq, Eq, Structural, Debug)]
pub struct Config {
    /// A resolver's unlocked self-stake must stay at or above this for it to
    /// be eligible at all.
    pub minimum_self_stake: u128,
    /// Unlocked self-stake plus delegated stake must reach this total for
    /// activation.
    pub activation_stake_amount: u128,
    /// The credibility score a resolver must hold to be eligible.
    pub required_credibility: u32,
    /// How long requested undelegations stay locked before they can be
    /// claimed.
    pub undelegate_time: u64,
    /// How long penalized funds stay frozen before they can be released.
    pub penalty_token_lock_time: u64,
}

} // verus!
