//! Errors and notifications emitted by the resolver network.

use vstd::prelude::*;

verus! {

/// Why an operation was rejected.  Every failure is locally recoverable and
/// leaves the network state untouched.
#[derive(Clone, Copy, PartialEq, Eq, Structural, Debug)]
pub enum Error {
    /// The spendable balance of the paying account does not cover the amount.
    InsufficientBalance,
    /// The requested amount exceeds the self-stake not already frozen under a
    /// penalty lock.
    InsufficientSelfStake,
    /// The requested amount exceeds what this delegator currently delegates.
    InsufficientDelegatedStake,
    /// The operation referenced a resolver with no stake history.
    UnknownResolver,
    /// The claim has no matured lock to release: either the lock's unlock
    /// time has not passed yet, or nothing claimable exists under the given
    /// key.
    LockNotExpired,
    /// A second undelegation request was made while one is still pending;
    /// the pending request must be claimed first.
    ExitAlreadyPending,
}

/// One typed notification per successful mutating call, plus an
/// `ActivationChanged` whenever a resolver's eligibility actually flips.
#[derive(Clone, Copy, PartialEq, Eq, Structural, Debug)]
pub enum Notification {
    /// A resolver's self-stake changed; carries the new self-stake total.
    StakeChanged { resolver: u128, new_self_stake: u128 },
    /// A delegator staked funds behind a resolver.
    Delegated { delegator: u128, resolver: u128, amount: u128 },
    /// A delegator asked to withdraw part of a delegation; the funds stay
    /// locked (and counted) until `unlock_at`.
    UndelegateRequested { delegator: u128, resolver: u128, amount: u128, unlock_at: u64 },
    /// A matured undelegation request was claimed and the funds returned.
    UndelegateClaimed { delegator: u128, resolver: u128, amount: u128 },
    /// Part of a resolver's self-stake was frozen until `unlock_at`.
    Penalized { resolver: u128, amount: u128, unlock_at: u64 },
    /// A matured penalty lock was released back into self-stake.
    PenaltyReleased { resolver: u128, amount: u128 },
    /// The resolver's eligibility actually flipped to `active`.
    ActivationChanged { resolver: u128, active: bool },
}

} // verus!
