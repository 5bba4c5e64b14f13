//! A small builder assembling a freshly endowed network for tests and
//! harnesses: a list of genesis balances plus the deployment configuration.

use vstd::prelude::*;
use crate::config::Config;
use crate::network::{among, endowment_measure, uniq_accounts, ResolversNetwork};
use crate::sums::sum_by;

verus! {

/// Collects genesis endowments and a configuration, then builds the
/// network.
pub struct ExtBuilder {
    pub balances: Vec<(u128, u128)>,
    pub config: Config,
}

impl Default for ExtBuilder {
    /// Three accounts (1, 2 and 3) endowed with 1000 each, under the stock
    /// configuration: minimum self-stake 100, activation total 1000,
    /// required credibility 30, and two-day (in milliseconds) undelegation
    /// and penalty windows.
    fn default() -> (s: Self)
        ensures
            s.balances@ == seq![(1u128, 1000u128), (2u128, 1000u128), (3u128, 1000u128)],
            s.config == (Config {
                minimum_self_stake: 100,
                activation_stake_amount: 1000,
                required_credibility: 30,
                undelegate_time: 172800000,
                penalty_token_lock_time: 172800000,
            }),
    {
        let mut balances: Vec<(u128, u128)> = Vec::new();
        balances.push((1, 1000));
        balances.push((2, 1000));
        balances.push((3, 1000));
        proof {
            assert(balances@ =~= seq![(1u128, 1000u128), (2u128, 1000u128), (3u128, 1000u128)]);
        }
        ExtBuilder {
            balances,
            config: Config {
                minimum_self_stake: 100,
                activation_stake_amount: 1000,
                required_credibility: 30,
                undelegate_time: 172800000,
                penalty_token_lock_time: 172800000,
            },
        }
    }
}

impl ExtBuilder {
    /// Start from an empty endowment list and the given configuration.
    pub fn new(config: Config) -> (s: Self)
        ensures
            s.balances@.len() == 0,
            s.config == config,
    {
        ExtBuilder { balances: Vec::new(), config }
    }

    /// Endow one more account.
    pub fn balance(self, account: u128, amount: u128) -> (s: Self)
        ensures
            s.balances@ == self.balances@.push((account, amount)),
            s.config == self.config,
    {
        let mut b = self;
        b.balances.push((account, amount));
        b
    }

    /// Build the network: every listed account starts with its endowment
    /// spendable, and nothing is staked yet.
    pub fn build(self) -> (s: ResolversNetwork)
        requires
            uniq_accounts(self.balances@),
            sum_by(self.balances@, endowment_measure()) <= u128::MAX,
        ensures
            s.wf(),
            s.config == self.config,
            s.resolvers@.len() == 0,
            s.delegations@.len() == 0,
            s.penalties@.len() == 0,
            s.events@.len() == 0,
            forall|k: int|
                0 <= k < self.balances@.len() ==> s.spendable((#[trigger] self.balances@[k]).0)
                    == self.balances@[k].1,
            forall|a: u128|
                !among(self.balances@, self.balances@.len() as int, a) ==> s.spendable(a) == 0,
            s.total() == sum_by(self.balances@, endowment_measure()),
    {
        ResolversNetwork::genesis(self.config, &self.balances)
    }
}

} // verus!
