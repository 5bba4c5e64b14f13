//! The flat records the network state is made of, and the eligibility rule.

use vstd::prelude::*;
use crate::config::Config;

verus! {

/// One account's spendable (unstaked) balance.
#[derive(Clone, Copy, PartialEq, Eq, Structural, Debug)]
pub struct BalanceEntry {
    pub account: u128,
    pub amount: u128,
}

/// One resolver's stake record.  `active` is derived: it is recomputed on
/// every mutation and always equals the eligibility rule applied to the
/// other fields.
#[derive(Clone, Copy, PartialEq, Eq, Structural, Debug)]
pub struct ResolverEntry {
    pub account: u128,
    /// Collateral the resolver locked directly, including any portion
    /// currently frozen under penalty locks.
    pub self_stake: u128,
    /// Sum of all delegations currently backing this resolver, including
    /// amounts under a pending (unclaimed) undelegation request.
    pub delegated_stake: u128,
    /// Portion of `self_stake` frozen under penalty locks; always equals the
    /// sum of this resolver's penalty lock amounts.
    pub locked: u128,
    /// Externally maintained reputation score, mirrored in via
    /// `update_credibility`; zero until first reported.
    pub credibility: u32,
    /// Derived eligibility flag; never set directly by a caller.
    pub active: bool,
}

/// A pending undelegation: `amount` stays locked (and still counted in the
/// resolver's backing) until `unlock_at`.
#[derive(Clone, Copy, PartialEq, Eq, Structural, Debug)]
pub struct ExitRequest {
    pub amount: u128,
    pub unlock_at: u64,
}

/// One delegator's stake behind one resolver, keyed by the pair.
#[derive(Clone, Copy, PartialEq, Eq, Structural, Debug)]
pub struct DelegationEntry {
    pub delegator: u128,
    pub resolver: u128,
    pub amount: u128,
    /// At most one undelegation request may be in flight per delegation; a
    /// second request before the first is claimed is rejected.
    pub pending: Option<ExitRequest>,
}

/// One penalty lock: `amount` of the resolver's self-stake is frozen until
/// `unlock_at`.  A resolver may hold several independent locks.
#[derive(Clone, Copy, PartialEq, Eq, Structural, Debug)]
pub struct PenaltyEntry {
    pub resolver: u128,
    pub amount: u128,
    pub unlock_at: u64,
}

/// A read-only snapshot of one resolver's state, as returned by
/// `query_resolver_state`.
#[derive(Debug)]
pub struct ResolverStateView {
    pub self_stake: u128,
    pub delegated_stake: u128,
    pub locked: u128,
    pub credibility: u32,
    pub active: bool,
    /// This resolver's currently outstanding penalty locks.
    pub locks: Vec<PenaltyEntry>,
}

/// The eligibility rule: a resolver is active iff its unlocked self-stake
/// plus delegated stake reaches the activation total, its unlocked
/// self-stake alone reaches the minimum, and its credibility clears the
/// required score.
pub open spec fn entry_eligible(cfg: Config, e: ResolverEntry) -> bool {
    &&& e.self_stake - e.locked + e.delegated_stake >= cfg.activation_stake_amount
    &&& e.self_stake - e.locked >= cfg.minimum_self_stake
    &&& e.credibility >= cfg.required_credibility
}

/// Executable eligibility check, proved equal to the rule.
pub fn compute_eligible(cfg: &Config, e: &ResolverEntry) -> (b: bool)
    requires
        e.locked <= e.self_stake,
        e.self_stake - e.locked + e.delegated_stake <= u128::MAX,
    ensures
        b == entry_eligible(*cfg, *e),
{
    let unlocked: u128 = e.self_stake - e.locked;
    unlocked + e.delegated_stake >= cfg.activation_stake_amount
        && unlocked >= cfg.minimum_self_stake
        && e.credibility >= cfg.required_credibility
}

} // verus!
