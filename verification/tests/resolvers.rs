use resolvers_network::builder::ExtBuilder;
use resolvers_network::config::Config;
use resolvers_network::events::{Error, Notification};
use resolvers_network::network::ResolversNetwork;

fn small_config() -> Config {
    Config {
        minimum_self_stake: 100,
        activation_stake_amount: 1000,
        required_credibility: 0,
        undelegate_time: 1000,
        penalty_token_lock_time: 500,
    }
}

fn two_accounts() -> ResolversNetwork {
    ExtBuilder::new(small_config()).balance(1, 1000).balance(2, 1000).build()
}

#[test]
fn builder_default_endows_three_accounts() {
    let n = ExtBuilder::default().build();
    assert_eq!(n.balance_of_account(1), 1000);
    assert_eq!(n.balance_of_account(2), 1000);
    assert_eq!(n.balance_of_account(3), 1000);
    assert_eq!(n.balance_of_account(4), 0);
    assert!(n.last_event().is_none());
    assert!(n.query_resolver_state(1).is_none());
}

#[test]
fn self_stake_moves_funds_and_registers() {
    let mut n = two_accounts();
    assert_eq!(n.self_stake(1, 300), Ok(()));
    assert_eq!(n.balance_of_account(1), 700);
    let v = n.query_resolver_state(1).unwrap();
    assert_eq!(v.self_stake, 300);
    assert_eq!(v.delegated_stake, 0);
    assert!(!v.active);
    assert_eq!(
        n.last_event(),
        Some(Notification::StakeChanged { resolver: 1, new_self_stake: 300 })
    );
}

#[test]
fn self_stake_rejects_insufficient_balance() {
    let mut n = two_accounts();
    assert_eq!(n.self_stake(1, 1001), Err(Error::InsufficientBalance));
    assert_eq!(n.balance_of_account(1), 1000);
    assert!(n.query_resolver_state(1).is_none());
    assert_eq!(n.event_count(), 0);
}

#[test]
fn activation_scenario_stake_then_delegate_then_exit() {
    // ActivationStakeAmount = 1000, MinimumSelfStake = 100.
    let mut n = two_accounts();

    // Resolver self-stakes 100: below the activation total, so inactive.
    assert_eq!(n.self_stake(1, 100), Ok(()));
    assert!(!n.query_resolver_state(1).unwrap().active);

    // Delegator delegates 900: activation threshold reached.
    assert_eq!(n.delegate(2, 1, 900), Ok(()));
    assert!(n.query_resolver_state(1).unwrap().active);
    assert_eq!(
        n.last_event(),
        Some(Notification::ActivationChanged { resolver: 1, active: true })
    );

    // Requesting undelegation changes nothing yet: stake still counted.
    assert_eq!(n.request_undelegate(2, 1, 900, 0), Ok(()));
    let v = n.query_resolver_state(1).unwrap();
    assert_eq!(v.delegated_stake, 900);
    assert!(v.active);

    // Claiming before the undelegation window has elapsed fails.
    assert_eq!(n.claim_undelegate(2, 1, 999), Err(Error::LockNotExpired));
    assert!(n.query_resolver_state(1).unwrap().active);

    // Once the window has elapsed the claim goes through and deactivates.
    assert_eq!(n.claim_undelegate(2, 1, 1000), Ok(()));
    let v = n.query_resolver_state(1).unwrap();
    assert_eq!(v.delegated_stake, 0);
    assert!(!v.active);
    assert_eq!(n.balance_of_account(2), 1000);
    assert_eq!(
        n.last_event(),
        Some(Notification::ActivationChanged { resolver: 1, active: false })
    );
}

#[test]
fn credibility_drop_deactivates_without_stake_change() {
    let mut n = ExtBuilder::new(Config { required_credibility: 30, ..small_config() })
        .balance(1, 1000)
        .build();
    assert_eq!(n.self_stake(1, 1000), Ok(()));
    // Credibility starts at zero, below the required 30: inactive.
    assert!(!n.query_resolver_state(1).unwrap().active);
    assert_eq!(n.update_credibility(1, 40), Ok(()));
    assert!(n.query_resolver_state(1).unwrap().active);

    // The external score drops to 20: deactivation with no stake change.
    assert_eq!(n.update_credibility(1, 20), Ok(()));
    let v = n.query_resolver_state(1).unwrap();
    assert!(!v.active);
    assert_eq!(v.self_stake, 1000);
    assert_eq!(v.delegated_stake, 0);
    assert_eq!(
        n.last_event(),
        Some(Notification::ActivationChanged { resolver: 1, active: false })
    );
}

#[test]
fn reevaluation_with_unchanged_inputs_emits_nothing() {
    let mut n = two_accounts();
    assert_eq!(n.self_stake(1, 1000), Ok(()));
    let before = n.event_count();
    assert_eq!(n.reevaluate(1), Ok(()));
    assert_eq!(n.event_count(), before);
    // Reporting the unchanged credibility score is a no-op as well.
    assert_eq!(n.update_credibility(1, 0), Ok(()));
    assert_eq!(n.event_count(), before);
}

#[test]
fn penalize_excludes_funds_immediately_and_release_restores() {
    let mut n = two_accounts();
    assert_eq!(n.self_stake(1, 1000), Ok(()));
    assert!(n.query_resolver_state(1).unwrap().active);

    // Freezing 950 leaves 50 unlocked, below the minimum self-stake of 100:
    // the resolver deactivates the instant the penalty succeeds.
    assert_eq!(n.penalize(1, 950, 0), Ok(()));
    let v = n.query_resolver_state(1).unwrap();
    assert_eq!(v.self_stake, 1000);
    assert_eq!(v.locked, 950);
    assert!(!v.active);
    assert_eq!(v.locks.len(), 1);
    assert_eq!(v.locks[0].amount, 950);
    assert_eq!(v.locks[0].unlock_at, 500);

    // Early release fails; the funds stay excluded.
    assert_eq!(n.claim_penalty_release(1, 500, 499), Err(Error::LockNotExpired));
    assert!(!n.query_resolver_state(1).unwrap().active);

    // At the unlock time the lock is released and eligibility returns.
    assert_eq!(n.claim_penalty_release(1, 500, 500), Ok(950));
    let v = n.query_resolver_state(1).unwrap();
    assert_eq!(v.locked, 0);
    assert!(v.active);
    assert_eq!(
        n.last_event(),
        Some(Notification::ActivationChanged { resolver: 1, active: true })
    );
}

#[test]
fn penalty_locks_are_tracked_independently() {
    let mut n = two_accounts();
    assert_eq!(n.self_stake(1, 1000), Ok(()));
    assert_eq!(n.penalize(1, 200, 0), Ok(()));
    assert_eq!(n.penalize(1, 300, 100), Ok(()));
    let v = n.query_resolver_state(1).unwrap();
    assert_eq!(v.locked, 500);
    assert_eq!(v.locks.len(), 2);

    // Each lock is released by its own unlock time, independently.
    assert_eq!(n.claim_penalty_release(1, 600, 700), Ok(300));
    let v = n.query_resolver_state(1).unwrap();
    assert_eq!(v.locked, 200);
    assert_eq!(v.locks.len(), 1);
    assert_eq!(v.locks[0].unlock_at, 500);
    assert_eq!(n.claim_penalty_release(1, 500, 700), Ok(200));
    assert_eq!(n.query_resolver_state(1).unwrap().locked, 0);
    // Nothing claimable is left under either key.
    assert_eq!(n.claim_penalty_release(1, 500, 700), Err(Error::LockNotExpired));
}

#[test]
fn penalize_rejects_more_than_unlocked_stake() {
    let mut n = two_accounts();
    assert_eq!(n.self_stake(1, 500), Ok(()));
    assert_eq!(n.penalize(1, 400, 0), Ok(()));
    assert_eq!(n.penalize(1, 101, 0), Err(Error::InsufficientSelfStake));
    assert_eq!(n.penalize(2, 1, 0), Err(Error::UnknownResolver));
}

#[test]
fn decrease_self_stake_is_limited_to_unlocked_funds() {
    let mut n = two_accounts();
    assert_eq!(n.self_stake(1, 1000), Ok(()));
    assert!(n.query_resolver_state(1).unwrap().active);
    assert_eq!(n.penalize(1, 600, 0), Ok(()));
    assert_eq!(n.decrease_self_stake(1, 401), Err(Error::InsufficientSelfStake));
    // Dropping below the minimum deactivates even though the decrease
    // itself succeeds.
    assert_eq!(n.decrease_self_stake(1, 350), Ok(()));
    let v = n.query_resolver_state(1).unwrap();
    assert_eq!(v.self_stake, 650);
    assert_eq!(v.locked, 600);
    assert!(!v.active);
    assert_eq!(n.balance_of_account(1), 350);
    assert_eq!(n.decrease_self_stake(2, 1), Err(Error::UnknownResolver));
}

#[test]
fn increase_self_stake_requires_a_record() {
    let mut n = two_accounts();
    assert_eq!(n.increase_self_stake(1, 100), Err(Error::UnknownResolver));
    assert_eq!(n.self_stake(1, 100), Ok(()));
    assert_eq!(n.increase_self_stake(1, 200), Ok(()));
    assert_eq!(n.query_resolver_state(1).unwrap().self_stake, 300);
    assert_eq!(n.increase_self_stake(1, 701), Err(Error::InsufficientBalance));
}

#[test]
fn delegate_requires_a_known_resolver() {
    let mut n = two_accounts();
    assert_eq!(n.delegate(2, 1, 100), Err(Error::UnknownResolver));
    assert_eq!(n.self_stake(1, 100), Ok(()));
    assert_eq!(n.delegate(2, 1, 100), Ok(()));
    assert_eq!(n.delegate(2, 1, 901), Err(Error::InsufficientBalance));
    assert_eq!(n.query_resolver_state(1).unwrap().delegated_stake, 100);
    assert_eq!(n.balance_of_account(2), 900);
}

#[test]
fn undelegate_request_rules() {
    let mut n = two_accounts();
    assert_eq!(n.self_stake(1, 100), Ok(()));
    assert_eq!(n.request_undelegate(2, 1, 10, 0), Err(Error::InsufficientDelegatedStake));
    assert_eq!(n.delegate(2, 1, 500), Ok(()));
    assert_eq!(n.request_undelegate(2, 1, 501, 0), Err(Error::InsufficientDelegatedStake));
    assert_eq!(n.request_undelegate(2, 3, 1, 0), Err(Error::UnknownResolver));
    assert_eq!(n.request_undelegate(2, 1, 200, 0), Ok(()));
    // A second request while one is pending is rejected, not merged.
    assert_eq!(n.request_undelegate(2, 1, 100, 0), Err(Error::ExitAlreadyPending));
    assert_eq!(
        n.last_event(),
        Some(Notification::UndelegateRequested {
            delegator: 2,
            resolver: 1,
            amount: 200,
            unlock_at: 1000,
        })
    );
    // Claiming with nothing matured fails; a partial claim leaves the rest.
    assert_eq!(n.claim_undelegate(2, 1, 999), Err(Error::LockNotExpired));
    assert_eq!(n.claim_undelegate(2, 1, 1500), Ok(()));
    let v = n.query_resolver_state(1).unwrap();
    assert_eq!(v.delegated_stake, 300);
    assert_eq!(n.balance_of_account(2), 700);
    // The pending slot is free again.
    assert_eq!(n.request_undelegate(2, 1, 300, 2000), Ok(()));
}

#[test]
fn claim_undelegate_without_request_fails() {
    let mut n = two_accounts();
    assert_eq!(n.claim_undelegate(2, 1, 0), Err(Error::UnknownResolver));
    assert_eq!(n.self_stake(1, 100), Ok(()));
    assert_eq!(n.claim_undelegate(2, 1, 0), Err(Error::LockNotExpired));
    assert_eq!(n.delegate(2, 1, 500), Ok(()));
    assert_eq!(n.claim_undelegate(2, 1, 5000), Err(Error::LockNotExpired));
}

#[test]
fn funds_are_conserved_across_every_operation() {
    let mut n = two_accounts();
    let total = |n: &ResolversNetwork| -> u128 {
        let mut t = n.balance_of_account(1) + n.balance_of_account(2);
        for r in [1u128, 2u128] {
            if let Some(v) = n.query_resolver_state(r) {
                t += v.self_stake + v.delegated_stake;
            }
        }
        t
    };
    assert_eq!(total(&n), 2000);
    assert_eq!(n.self_stake(1, 400), Ok(()));
    assert_eq!(total(&n), 2000);
    assert_eq!(n.delegate(2, 1, 600), Ok(()));
    assert_eq!(total(&n), 2000);
    assert_eq!(n.penalize(1, 100, 0), Ok(()));
    assert_eq!(total(&n), 2000);
    assert_eq!(n.request_undelegate(2, 1, 600, 0), Ok(()));
    assert_eq!(total(&n), 2000);
    assert_eq!(n.claim_undelegate(2, 1, 1000), Ok(()));
    assert_eq!(total(&n), 2000);
    assert_eq!(n.claim_penalty_release(1, 500, 500), Ok(100));
    assert_eq!(total(&n), 2000);
    assert_eq!(n.decrease_self_stake(1, 400), Ok(()));
    assert_eq!(total(&n), 2000);
    assert_eq!(n.balance_of_account(1), 1000);
    assert_eq!(n.balance_of_account(2), 1000);
}

#[test]
fn every_successful_mutation_emits_one_typed_notification() {
    let mut n = two_accounts();
    assert_eq!(n.self_stake(1, 100), Ok(()));
    assert_eq!(
        n.event_at(0),
        Notification::StakeChanged { resolver: 1, new_self_stake: 100 }
    );
    assert_eq!(n.delegate(2, 1, 900), Ok(()));
    assert_eq!(
        n.event_at(1),
        Notification::Delegated { delegator: 2, resolver: 1, amount: 900 }
    );
    assert_eq!(
        n.event_at(2),
        Notification::ActivationChanged { resolver: 1, active: true }
    );
    assert_eq!(n.penalize(1, 50, 10), Ok(()));
    assert_eq!(
        n.event_at(3),
        Notification::Penalized { resolver: 1, amount: 50, unlock_at: 510 }
    );
    assert_eq!(
        n.event_at(4),
        Notification::ActivationChanged { resolver: 1, active: false }
    );
    assert_eq!(n.claim_penalty_release(1, 510, 600), Ok(50));
    assert_eq!(
        n.event_at(5),
        Notification::PenaltyReleased { resolver: 1, amount: 50 }
    );
    assert_eq!(
        n.event_at(6),
        Notification::ActivationChanged { resolver: 1, active: true }
    );
    assert_eq!(n.request_undelegate(2, 1, 900, 600), Ok(()));
    assert_eq!(
        n.event_at(7),
        Notification::UndelegateRequested {
            delegator: 2,
            resolver: 1,
            amount: 900,
            unlock_at: 1600,
        }
    );
    assert_eq!(n.claim_undelegate(2, 1, 1600), Ok(()));
    assert_eq!(
        n.event_at(8),
        Notification::UndelegateClaimed { delegator: 2, resolver: 1, amount: 900 }
    );
    assert_eq!(
        n.event_at(9),
        Notification::ActivationChanged { resolver: 1, active: false }
    );
    assert_eq!(n.event_count(), 10);
}

#[test]
fn maximal_endowment_is_handled() {
    let mut n = ExtBuilder::new(small_config()).balance(1, u128::MAX).build();
    assert_eq!(n.self_stake(1, u128::MAX), Ok(()));
    let v = n.query_resolver_state(1).unwrap();
    assert_eq!(v.self_stake, u128::MAX);
    assert!(v.active);
    assert_eq!(n.decrease_self_stake(1, u128::MAX), Ok(()));
    assert_eq!(n.balance_of_account(1), u128::MAX);
    assert!(!n.query_resolver_state(1).unwrap().active);
}

#[test]
fn zero_amount_self_stake_registers_nothing() {
    let mut n = two_accounts();
    // A record is created only on the first self-stake above zero.
    assert_eq!(n.self_stake(1, 0), Ok(()));
    assert!(n.query_resolver_state(1).is_none());
    assert_eq!(n.delegate(2, 1, 100), Err(Error::UnknownResolver));
    assert_eq!(n.balance_of_account(1), 1000);
    assert_eq!(
        n.last_event(),
        Some(Notification::StakeChanged { resolver: 1, new_self_stake: 0 })
    );
    // The first positive self-stake registers; zero top-ups then stay legal.
    assert_eq!(n.self_stake(1, 100), Ok(()));
    assert!(n.query_resolver_state(1).is_some());
    assert_eq!(n.self_stake(1, 0), Ok(()));
    assert_eq!(n.query_resolver_state(1).unwrap().self_stake, 100);
}

#[test]
fn failed_operations_change_nothing() {
    let mut n = two_accounts();
    assert_eq!(n.self_stake(1, 100), Ok(()));
    let before_events = n.event_count();
    assert_eq!(n.self_stake(1, 10_000), Err(Error::InsufficientBalance));
    assert_eq!(n.delegate(2, 9, 1), Err(Error::UnknownResolver));
    assert_eq!(n.penalize(1, 101, 0), Err(Error::InsufficientSelfStake));
    assert_eq!(n.claim_undelegate(2, 1, 0), Err(Error::LockNotExpired));
    assert_eq!(n.event_count(), before_events);
    assert_eq!(n.balance_of_account(1), 900);
    assert_eq!(n.balance_of_account(2), 1000);
    let v = n.query_resolver_state(1).unwrap();
    assert_eq!(v.self_stake, 100);
    assert_eq!(v.locked, 0);
}
