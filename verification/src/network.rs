//! The resolver network state and its operations.
//!
//! The state owns four keyed ledgers — spendable balances, resolver stake
//! records, delegations, penalty locks — and the notification log.  Its
//! well-formedness predicate `wf` ties the derived fields to the ledgers:
//! every resolver's `locked` equals the sum of its penalty locks, its
//! `delegated_stake` equals the sum of the delegations backing it, and its
//! `active` flag equals the eligibility rule applied to the current record.
//! Every operation preserves `wf` and the total amount of tracked funds.

use vstd::prelude::*;
use vstd::pervasive::VecAdditionalExecFns;
use crate::config::Config;
use crate::events::{Error, Notification};
use crate::records::{
    compute_eligible, entry_eligible, BalanceEntry, DelegationEntry, ExitRequest, PenaltyEntry,
    ResolverEntry, ResolverStateView,
};
use crate::lookups::{
    balance_of, delegation_of, has_balance, has_delegation, has_resolver, lemma_balance_push,
    lemma_balance_update, lemma_delegation_push, lemma_delegation_update, lemma_resolver_push,
    lemma_resolver_update, resolver_idx, resolver_of, uniq_balances, uniq_delegations,
    uniq_resolvers,
};
use crate::sums::{
    lemma_sum_by_all_zero, lemma_sum_by_ge_elem, lemma_sum_by_nonneg, lemma_sum_by_push,
    lemma_sum_by_remove, lemma_sum_by_update, sum_by,
};

verus! {

// ------------------------------------------------------------------ measures

/// Measure of a balance entry: its spendable amount.
pub open spec fn bal_measure() -> spec_fn(BalanceEntry) -> int {
    |e: BalanceEntry| e.amount as int
}

/// Measure of a resolver entry: its self-stake (penalty-locked funds
/// included, since they never left the self-stake).
pub open spec fn stake_measure() -> spec_fn(ResolverEntry) -> int {
    |e: ResolverEntry| e.self_stake as int
}

/// Measure of a delegation entry: its delegated amount.
pub open spec fn del_measure() -> spec_fn(DelegationEntry) -> int {
    |e: DelegationEntry| e.amount as int
}

/// Measure of a delegation entry toward one resolver: its amount if it backs
/// `r`, zero otherwise.
pub open spec fn del_measure_for(r: u128) -> spec_fn(DelegationEntry) -> int {
    |e: DelegationEntry| if e.resolver == r {
        e.amount as int
    } else {
        0
    }
}

/// Measure of a penalty lock against one resolver: its amount if it freezes
/// `r`'s stake, zero otherwise.
pub open spec fn pen_measure_for(r: u128) -> spec_fn(PenaltyEntry) -> int {
    |e: PenaltyEntry| if e.resolver == r {
        e.amount as int
    } else {
        0
    }
}

// --------------------------------------------------------------------- state

/// The whole resolver network: configuration, the four ledgers, and the
/// notification log.
pub struct ResolversNetwork {
    pub config: Config,
    pub balances: Vec<BalanceEntry>,
    pub resolvers: Vec<ResolverEntry>,
    pub delegations: Vec<DelegationEntry>,
    pub penalties: Vec<PenaltyEntry>,
    pub events: Vec<Notification>,
}

/// A pending exit request never asks for more than the delegation holds.
pub open spec fn pending_ok(e: DelegationEntry) -> bool {
    match e.pending {
        Some(q) => q.amount <= e.amount,
        None => true,
    }
}

/// The spendable balance recorded for `a` (zero if no entry exists).
pub open spec fn spendable_in(s: Seq<BalanceEntry>, a: u128) -> u128 {
    if has_balance(s, a) {
        balance_of(s, a).amount
    } else {
        0
    }
}

impl ResolversNetwork {
    /// The spendable balance of an account.
    pub open spec fn spendable(self, a: u128) -> u128 {
        spendable_in(self.balances@, a)
    }

    /// Whether `r` has a resolver record (created on first self-stake; never
    /// removed, though it may be zeroed).
    pub open spec fn registered(self, r: u128) -> bool {
        has_resolver(self.resolvers@, r)
    }

    /// The resolver record of `r`.
    pub open spec fn resolver_rec(self, r: u128) -> ResolverEntry
        recommends
            self.registered(r),
    {
        resolver_of(self.resolvers@, r)
    }

    /// Total self-stake of `r` (zero if unregistered).
    pub open spec fn self_stake_of(self, r: u128) -> u128 {
        if self.registered(r) {
            self.resolver_rec(r).self_stake
        } else {
            0
        }
    }

    /// Self-stake of `r` currently frozen under penalty locks.
    pub open spec fn locked_of(self, r: u128) -> u128 {
        if self.registered(r) {
            self.resolver_rec(r).locked
        } else {
            0
        }
    }

    /// Self-stake of `r` not frozen under a penalty lock; the portion that
    /// counts toward eligibility and may be withdrawn.
    pub open spec fn unlocked_of(self, r: u128) -> int {
        self.self_stake_of(r) - self.locked_of(r)
    }

    /// The aggregate delegated stake backing `r`.
    pub open spec fn delegated_of(self, r: u128) -> u128 {
        if self.registered(r) {
            self.resolver_rec(r).delegated_stake
        } else {
            0
        }
    }

    /// The credibility score last reported for `r` (zero until reported).
    pub open spec fn credibility_of(self, r: u128) -> u32 {
        if self.registered(r) {
            self.resolver_rec(r).credibility
        } else {
            0
        }
    }

    /// Whether `r` is currently active (false if unregistered).
    pub open spec fn active_of(self, r: u128) -> bool {
        self.registered(r) && self.resolver_rec(r).active
    }

    /// The amount `d` currently delegates to `r` (zero if no record).
    pub open spec fn delegation_amount(self, d: u128, r: u128) -> u128 {
        if has_delegation(self.delegations@, d, r) {
            delegation_of(self.delegations@, d, r).amount
        } else {
            0
        }
    }

    /// The pending undelegation request of `d` toward `r`, if any.
    pub open spec fn pending_of(self, d: u128, r: u128) -> Option<ExitRequest> {
        if has_delegation(self.delegations@, d, r) {
            delegation_of(self.delegations@, d, r).pending
        } else {
            None
        }
    }

    /// Sum of all spendable balances.
    pub open spec fn sum_balances(self) -> int {
        sum_by(self.balances@, bal_measure())
    }

    /// Sum of all self-stakes.
    pub open spec fn sum_stakes(self) -> int {
        sum_by(self.resolvers@, stake_measure())
    }

    /// Sum of all delegated amounts.
    pub open spec fn sum_delegations(self) -> int {
        sum_by(self.delegations@, del_measure())
    }

    /// Every unit of value the network tracks: spendable balances plus
    /// locked self-stake plus delegated stake.  Conserved by every
    /// operation.
    pub open spec fn total(self) -> int {
        self.sum_balances() + self.sum_stakes() + self.sum_delegations()
    }

    /// A resolver record is consistent with the ledgers: its `locked` and
    /// `delegated_stake` fields equal the corresponding sums, the locked
    /// portion never exceeds the self-stake, and `active` equals the
    /// eligibility rule.
    pub open spec fn resolver_ok(self, e: ResolverEntry) -> bool {
        &&& e.locked as int == sum_by(self.penalties@, pen_measure_for(e.account))
        &&& e.locked <= e.self_stake
        &&& e.delegated_stake as int == sum_by(self.delegations@, del_measure_for(e.account))
        &&& e.active == entry_eligible(self.config, e)
    }

    /// A delegation record is consistent: a pending exit never exceeds the
    /// delegated amount, and the backed resolver has a record.
    pub open spec fn delegation_ok(self, e: DelegationEntry) -> bool {
        &&& pending_ok(e)
        &&& has_resolver(self.resolvers@, e.resolver)
    }

    /// Well-formedness of the whole network state.
    pub open spec fn wf(self) -> bool {
        &&& uniq_balances(self.balances@)
        &&& uniq_resolvers(self.resolvers@)
        &&& uniq_delegations(self.delegations@)
        &&& forall|i: int|
            0 <= i < self.resolvers@.len() ==> self.resolver_ok(#[trigger] self.resolvers@[i])
        &&& forall|i: int|
            0 <= i < self.delegations@.len() ==> self.delegation_ok(
                #[trigger] self.delegations@[i],
            )
        &&& forall|i: int|
            0 <= i < self.penalties@.len() ==> has_resolver(
                self.resolvers@,
                (#[trigger] self.penalties@[i]).resolver,
            )
        &&& self.total() <= u128::MAX as int
    }
}

/// The subsequence of penalty locks that freeze `r`'s stake, in ledger
/// order.
pub open spec fn plocks_of(s: Seq<PenaltyEntry>, r: u128) -> Seq<PenaltyEntry>
    decreases s.len(),
{
    if s.len() == 0 {
        Seq::empty()
    } else if s[0].resolver == r {
        seq![s[0]] + plocks_of(s.skip(1), r)
    } else {
        plocks_of(s.skip(1), r)
    }
}

/// Some penalty lock of `r` has exactly this unlock time.
pub open spec fn has_penalty(s: Seq<PenaltyEntry>, r: u128, t: u64) -> bool {
    exists|i: int|
        0 <= i < s.len() && (#[trigger] s[i]).resolver == r && s[i].unlock_at == t
}

/// How the notification log grows on a successful operation affecting
/// resolver `who`: the operation's own notification, then an
/// `ActivationChanged` exactly when the eligibility flag actually flipped.
pub open spec fn events_after(
    pre: ResolversNetwork,
    post: ResolversNetwork,
    who: u128,
    ev: Notification,
) -> bool {
    if post.active_of(who) == pre.active_of(who) {
        post.events@ == pre.events@.push(ev)
    } else {
        post.events@ == pre.events@.push(ev).push(
            Notification::ActivationChanged { resolver: who, active: post.active_of(who) },
        )
    }
}

// ------------------------------------------------------------ helper lemmas

/// All four measures are nonnegative, so each sum bounds its parts.
proof fn lemma_bal_sum_nonneg(s: Seq<BalanceEntry>)
    ensures
        sum_by(s, bal_measure()) >= 0,
{
    assert(forall|j: int| 0 <= j < s.len() ==> (bal_measure())(#[trigger] s[j]) >= 0);
    lemma_sum_by_nonneg(s, bal_measure());
}

proof fn lemma_stake_sum_nonneg(s: Seq<ResolverEntry>)
    ensures
        sum_by(s, stake_measure()) >= 0,
{
    assert(forall|j: int| 0 <= j < s.len() ==> (stake_measure())(#[trigger] s[j]) >= 0);
    lemma_sum_by_nonneg(s, stake_measure());
}

proof fn lemma_del_sum_nonneg(s: Seq<DelegationEntry>)
    ensures
        sum_by(s, del_measure()) >= 0,
{
    assert(forall|j: int| 0 <= j < s.len() ==> (del_measure())(#[trigger] s[j]) >= 0);
    lemma_sum_by_nonneg(s, del_measure());
}

proof fn lemma_del_for_sum_nonneg(s: Seq<DelegationEntry>, r: u128)
    ensures
        sum_by(s, del_measure_for(r)) >= 0,
{
    assert(forall|j: int| 0 <= j < s.len() ==> (del_measure_for(r))(#[trigger] s[j]) >= 0);
    lemma_sum_by_nonneg(s, del_measure_for(r));
}

/// Updating one delegation entry in place (same delegator and resolver)
/// moves the per-resolver and overall delegation sums by the change in
/// amount, and leaves every other resolver's sum alone.
proof fn lemma_del_sums_update(s: Seq<DelegationEntry>, i: int, e: DelegationEntry)
    requires
        0 <= i < s.len(),
        e.resolver == s[i].resolver,
    ensures
        forall|z: u128|
            z != e.resolver ==> #[trigger] sum_by(s.update(i, e), del_measure_for(z)) == sum_by(
                s,
                del_measure_for(z),
            ),
        sum_by(s.update(i, e), del_measure_for(e.resolver)) == sum_by(
            s,
            del_measure_for(e.resolver),
        ) - s[i].amount + e.amount,
        sum_by(s.update(i, e), del_measure()) == sum_by(s, del_measure()) - s[i].amount
            + e.amount,
{
    assert forall|z: u128|
        z != e.resolver implies #[trigger] sum_by(s.update(i, e), del_measure_for(z)) == sum_by(
        s,
        del_measure_for(z),
    ) by {
        lemma_sum_by_update(s, del_measure_for(z), i, e);
        assert((del_measure_for(z))(s[i]) == 0);
        assert((del_measure_for(z))(e) == 0);
    }
    lemma_sum_by_update(s, del_measure_for(e.resolver), i, e);
    lemma_sum_by_update(s, del_measure(), i, e);
}

/// Appending a delegation entry adds its amount to its own resolver's sum
/// and the overall sum, and leaves every other resolver's sum alone.
proof fn lemma_del_sums_push(s: Seq<DelegationEntry>, e: DelegationEntry)
    ensures
        forall|z: u128|
            z != e.resolver ==> #[trigger] sum_by(s.push(e), del_measure_for(z)) == sum_by(
                s,
                del_measure_for(z),
            ),
        sum_by(s.push(e), del_measure_for(e.resolver)) == sum_by(s, del_measure_for(e.resolver))
            + e.amount,
        sum_by(s.push(e), del_measure()) == sum_by(s, del_measure()) + e.amount,
{
    assert forall|z: u128|
        z != e.resolver implies #[trigger] sum_by(s.push(e), del_measure_for(z)) == sum_by(
        s,
        del_measure_for(z),
    ) by {
        lemma_sum_by_push(s, del_measure_for(z), e);
        assert((del_measure_for(z))(e) == 0);
    }
    lemma_sum_by_push(s, del_measure_for(e.resolver), e);
    lemma_sum_by_push(s, del_measure(), e);
}

/// Appending a penalty lock adds its amount to its own resolver's lock sum
/// and leaves every other resolver's lock sum alone.
proof fn lemma_pen_sums_push(s: Seq<PenaltyEntry>, e: PenaltyEntry)
    ensures
        forall|z: u128|
            z != e.resolver ==> #[trigger] sum_by(s.push(e), pen_measure_for(z)) == sum_by(
                s,
                pen_measure_for(z),
            ),
        sum_by(s.push(e), pen_measure_for(e.resolver)) == sum_by(s, pen_measure_for(e.resolver))
            + e.amount,
{
    assert forall|z: u128|
        z != e.resolver implies #[trigger] sum_by(s.push(e), pen_measure_for(z)) == sum_by(
        s,
        pen_measure_for(z),
    ) by {
        lemma_sum_by_push(s, pen_measure_for(z), e);
        assert((pen_measure_for(z))(e) == 0);
    }
    lemma_sum_by_push(s, pen_measure_for(e.resolver), e);
}

/// Removing a penalty lock takes its amount out of its own resolver's lock
/// sum and leaves every other resolver's lock sum alone.
proof fn lemma_pen_sums_remove(s: Seq<PenaltyEntry>, i: int)
    requires
        0 <= i < s.len(),
    ensures
        forall|z: u128|
            z != s[i].resolver ==> #[trigger] sum_by(s.remove(i), pen_measure_for(z)) == sum_by(
                s,
                pen_measure_for(z),
            ),
        sum_by(s.remove(i), pen_measure_for(s[i].resolver)) == sum_by(
            s,
            pen_measure_for(s[i].resolver),
        ) - s[i].amount,
{
    assert forall|z: u128|
        z != s[i].resolver implies #[trigger] sum_by(s.remove(i), pen_measure_for(z)) == sum_by(
        s,
        pen_measure_for(z),
    ) by {
        lemma_sum_by_remove(s, pen_measure_for(z), i);
        assert((pen_measure_for(z))(s[i]) == 0);
    }
    lemma_sum_by_remove(s, pen_measure_for(s[i].resolver), i);
}

/// A resolver with no record is backed by no delegation and frozen by no
/// penalty lock, so both of its sums are zero.
proof fn lemma_absent_resolver_sums(s: ResolversNetwork, a: u128)
    requires
        s.wf(),
        !s.registered(a),
    ensures
        sum_by(s.delegations@, del_measure_for(a)) == 0,
        sum_by(s.penalties@, pen_measure_for(a)) == 0,
{
    assert(forall|j: int|
        0 <= j < s.delegations@.len() ==> (del_measure_for(a))(#[trigger] s.delegations@[j])
            == 0) by {
        assert(forall|j: int|
            0 <= j < s.delegations@.len() ==> (#[trigger] s.delegations@[j]).resolver != a);
    }
    lemma_sum_by_all_zero(s.delegations@, del_measure_for(a));
    assert(forall|j: int|
        0 <= j < s.penalties@.len() ==> (pen_measure_for(a))(#[trigger] s.penalties@[j]) == 0)
        by {
        assert(forall|j: int|
            0 <= j < s.penalties@.len() ==> (#[trigger] s.penalties@[j]).resolver != a);
    }
    lemma_sum_by_all_zero(s.penalties@, pen_measure_for(a));
}

/// In a well-formed state the record of a registered resolver is consistent
/// (`resolver_ok`), and its first-match index is the witness index.
proof fn lemma_rec_ok(s: ResolversNetwork, a: u128)
    requires
        s.wf(),
        s.registered(a),
    ensures
        s.resolver_ok(s.resolver_rec(a)),
        s.resolver_rec(a).account == a,
        0 <= resolver_idx(s.resolvers@, a) < s.resolvers@.len(),
        s.resolvers@[resolver_idx(s.resolvers@, a)] == s.resolver_rec(a),
{
    let i = resolver_idx(s.resolvers@, a);
    assert(0 <= i < s.resolvers@.len() && s.resolvers@[i].account == a);
    assert(s.resolver_ok(s.resolvers@[i]));
}

/// A found index is the lookup index, under unique keys.
proof fn lemma_resolver_found(s: Seq<ResolverEntry>, a: u128, i: int)
    requires
        uniq_resolvers(s),
        0 <= i < s.len(),
        s[i].account == a,
    ensures
        has_resolver(s, a),
        resolver_idx(s, a) == i,
        resolver_of(s, a) == s[i],
{
    assert(has_resolver(s, a));
    let j = resolver_idx(s, a);
    assert(0 <= j < s.len() && s[j].account == a);
    if j < i {
        assert(s[j].account != s[i].account);
    } else if j > i {
        assert(s[i].account != s[j].account);
    }
}

/// A found index is the lookup index, under unique keys.
proof fn lemma_balance_found(s: Seq<BalanceEntry>, a: u128, i: int)
    requires
        uniq_balances(s),
        0 <= i < s.len(),
        s[i].account == a,
    ensures
        has_balance(s, a),
        crate::lookups::balance_idx(s, a) == i,
        balance_of(s, a) == s[i],
{
    assert(has_balance(s, a));
    let j = crate::lookups::balance_idx(s, a);
    assert(0 <= j < s.len() && s[j].account == a);
    if j < i {
        assert(s[j].account != s[i].account);
    } else if j > i {
        assert(s[i].account != s[j].account);
    }
}

/// A found index is the lookup index, under unique pairs.
proof fn lemma_delegation_found(s: Seq<DelegationEntry>, d: u128, r: u128, i: int)
    requires
        uniq_delegations(s),
        0 <= i < s.len(),
        s[i].delegator == d,
        s[i].resolver == r,
    ensures
        has_delegation(s, d, r),
        crate::lookups::delegation_idx(s, d, r) == i,
        delegation_of(s, d, r) == s[i],
{
    assert(has_delegation(s, d, r));
    let j = crate::lookups::delegation_idx(s, d, r);
    assert(0 <= j < s.len() && s[j].delegator == d && s[j].resolver == r);
    if j < i {
        assert(!(s[j].delegator == s[i].delegator && s[j].resolver == s[i].resolver));
    } else if j > i {
        assert(!(s[i].delegator == s[j].delegator && s[i].resolver == s[j].resolver));
    }
}

/// Filtering the penalty ledger commutes with appending an entry.
proof fn lemma_plocks_push(s: Seq<PenaltyEntry>, x: PenaltyEntry, r: u128)
    ensures
        plocks_of(s.push(x), r) == if x.resolver == r {
            plocks_of(s, r).push(x)
        } else {
            plocks_of(s, r)
        },
    decreases s.len(),
{
    let t = s.push(x);
    assert(plocks_of(t, r) == if t[0].resolver == r {
        seq![t[0]] + plocks_of(t.skip(1), r)
    } else {
        plocks_of(t.skip(1), r)
    });
    if s.len() == 0 {
        assert(t[0] == x);
        assert(t.skip(1) =~= Seq::<PenaltyEntry>::empty());
        assert(plocks_of(t.skip(1), r) == Seq::<PenaltyEntry>::empty());
        assert(plocks_of(s, r) == Seq::<PenaltyEntry>::empty());
        if x.resolver == r {
            assert(seq![x] + Seq::<PenaltyEntry>::empty() =~= plocks_of(s, r).push(x));
        }
    } else {
        assert(t.skip(1) =~= s.skip(1).push(x));
        lemma_plocks_push(s.skip(1), x, r);
        assert(t[0] == s[0]);
        assert(plocks_of(s, r) == if s[0].resolver == r {
            seq![s[0]] + plocks_of(s.skip(1), r)
        } else {
            plocks_of(s.skip(1), r)
        });
        if s[0].resolver == r {
            if x.resolver == r {
                assert(seq![s[0]] + plocks_of(s.skip(1), r).push(x) =~= (seq![s[0]] + plocks_of(
                    s.skip(1),
                    r,
                )).push(x));
            }
        }
    }
}

/// An account's spendable balance never exceeds the sum of all balances.
proof fn lemma_spendable_le_sum(s: Seq<BalanceEntry>, a: u128)
    ensures
        spendable_in(s, a) <= sum_by(s, bal_measure()),
{
    lemma_bal_sum_nonneg(s);
    if has_balance(s, a) {
        let i = crate::lookups::balance_idx(s, a);
        assert(0 <= i < s.len() && s[i].account == a);
        assert(forall|j: int| 0 <= j < s.len() ==> (bal_measure())(#[trigger] s[j]) >= 0);
        lemma_sum_by_ge_elem(s, bal_measure(), i);
        assert((bal_measure())(s[i]) == balance_of(s, a).amount);
    }
}

/// A registered resolver's stake and backing never exceed the respective
/// ledger sums.
proof fn lemma_rec_bounds(s: ResolversNetwork, a: u128)
    requires
        s.wf(),
        s.registered(a),
    ensures
        s.self_stake_of(a) <= s.sum_stakes(),
        s.delegated_of(a) <= s.sum_delegations(),
{
    lemma_rec_ok(s, a);
    let i = resolver_idx(s.resolvers@, a);
    assert(forall|j: int|
        0 <= j < s.resolvers@.len() ==> (stake_measure())(#[trigger] s.resolvers@[j]) >= 0);
    lemma_sum_by_ge_elem(s.resolvers@, stake_measure(), i);
    assert((stake_measure())(s.resolvers@[i]) == s.self_stake_of(a) as int);
    assert(forall|j: int|
        0 <= j < s.delegations@.len() ==> (del_measure_for(a))(#[trigger] s.delegations@[j])
            <= (del_measure())(s.delegations@[j]));
    crate::sums::lemma_sum_by_le(s.delegations@, del_measure_for(a), del_measure());
}

/// One delegation never exceeds the resolver's aggregate delegated stake.
proof fn lemma_delegation_le_delegated(s: ResolversNetwork, d: u128, r: u128)
    requires
        s.wf(),
        s.registered(r),
        has_delegation(s.delegations@, d, r),
    ensures
        s.delegation_amount(d, r) <= s.delegated_of(r),
{
    lemma_rec_ok(s, r);
    let j = crate::lookups::delegation_idx(s.delegations@, d, r);
    assert(0 <= j < s.delegations@.len() && s.delegations@[j].delegator == d
        && s.delegations@[j].resolver == r);
    assert(forall|k: int|
        0 <= k < s.delegations@.len() ==> (del_measure_for(r))(#[trigger] s.delegations@[k])
            >= 0);
    lemma_sum_by_ge_elem(s.delegations@, del_measure_for(r), j);
    assert((del_measure_for(r))(s.delegations@[j]) == s.delegation_amount(d, r) as int);
}

/// Frame lemma for operations that rewrite one resolver record in place:
/// if the new record is consistent, the per-resolver sums of every other
/// account are untouched, and every delegation and penalty lock still
/// references a recorded resolver, then all the quantified parts of `wf`
/// carry over to the new state.
proof fn lemma_wf_core_update(
    pre: ResolversNetwork,
    post: ResolversNetwork,
    i: int,
    ne: ResolverEntry,
)
    requires
        pre.wf(),
        0 <= i < pre.resolvers@.len(),
        ne.account == pre.resolvers@[i].account,
        post.config == pre.config,
        post.resolvers@ == pre.resolvers@.update(i, ne),
        post.resolver_ok(ne),
        forall|z: u128|
            z != ne.account ==> #[trigger] sum_by(post.delegations@, del_measure_for(z))
                == sum_by(pre.delegations@, del_measure_for(z)),
        forall|z: u128|
            z != ne.account ==> #[trigger] sum_by(post.penalties@, pen_measure_for(z)) == sum_by(
                pre.penalties@,
                pen_measure_for(z),
            ),
        forall|k: int|
            0 <= k < post.delegations@.len() ==> pending_ok(#[trigger] post.delegations@[k])
                && has_resolver(pre.resolvers@, post.delegations@[k].resolver),
        forall|k: int|
            0 <= k < post.penalties@.len() ==> has_resolver(
                pre.resolvers@,
                (#[trigger] post.penalties@[k]).resolver,
            ),
    ensures
        uniq_resolvers(post.resolvers@),
        has_resolver(post.resolvers@, ne.account),
        resolver_of(post.resolvers@, ne.account) == ne,
        forall|b: u128|
            #[trigger] has_resolver(post.resolvers@, b) == has_resolver(pre.resolvers@, b),
        forall|b: u128|
            b != ne.account && has_resolver(pre.resolvers@, b) ==> #[trigger] resolver_of(
                post.resolvers@,
                b,
            ) == resolver_of(pre.resolvers@, b),
        forall|k: int|
            0 <= k < post.resolvers@.len() ==> post.resolver_ok(#[trigger] post.resolvers@[k]),
        forall|k: int|
            0 <= k < post.delegations@.len() ==> post.delegation_ok(
                #[trigger] post.delegations@[k],
            ),
        forall|k: int|
            0 <= k < post.penalties@.len() ==> has_resolver(
                post.resolvers@,
                (#[trigger] post.penalties@[k]).resolver,
            ),
{
    lemma_resolver_update(pre.resolvers@, i, ne);
    assert forall|k: int|
        0 <= k < post.resolvers@.len() implies post.resolver_ok(
        #[trigger] post.resolvers@[k],
    ) by {
        if k != i {
            let x = pre.resolvers@[k];
            assert(pre.resolver_ok(x));
            assert(x.account != ne.account) by {
                if k < i {
                    assert(pre.resolvers@[k].account != pre.resolvers@[i].account);
                } else {
                    assert(pre.resolvers@[i].account != pre.resolvers@[k].account);
                }
            }
            assert(sum_by(post.delegations@, del_measure_for(x.account)) == sum_by(
                pre.delegations@,
                del_measure_for(x.account),
            ));
            assert(sum_by(post.penalties@, pen_measure_for(x.account)) == sum_by(
                pre.penalties@,
                pen_measure_for(x.account),
            ));
            assert(post.resolvers@[k] == x);
        }
    }
    assert forall|k: int|
        0 <= k < post.delegations@.len() implies post.delegation_ok(
        #[trigger] post.delegations@[k],
    ) by {
        assert(has_resolver(pre.resolvers@, post.delegations@[k].resolver));
    }
}

/// Frame lemma for the creation of a fresh resolver record at the end of
/// the ledger, with everything else as in `lemma_wf_core_update`.
proof fn lemma_wf_core_push(pre: ResolversNetwork, post: ResolversNetwork, ne: ResolverEntry)
    requires
        pre.wf(),
        !has_resolver(pre.resolvers@, ne.account),
        post.config == pre.config,
        post.resolvers@ == pre.resolvers@.push(ne),
        post.delegations@ == pre.delegations@,
        post.penalties@ == pre.penalties@,
        post.resolver_ok(ne),
    ensures
        uniq_resolvers(post.resolvers@),
        has_resolver(post.resolvers@, ne.account),
        resolver_of(post.resolvers@, ne.account) == ne,
        forall|b: u128|
            b != ne.account ==> #[trigger] has_resolver(post.resolvers@, b) == has_resolver(
                pre.resolvers@,
                b,
            ),
        forall|b: u128|
            b != ne.account && has_resolver(pre.resolvers@, b) ==> #[trigger] resolver_of(
                post.resolvers@,
                b,
            ) == resolver_of(pre.resolvers@, b),
        forall|k: int|
            0 <= k < post.resolvers@.len() ==> post.resolver_ok(#[trigger] post.resolvers@[k]),
        forall|k: int|
            0 <= k < post.delegations@.len() ==> post.delegation_ok(
                #[trigger] post.delegations@[k],
            ),
        forall|k: int|
            0 <= k < post.penalties@.len() ==> has_resolver(
                post.resolvers@,
                (#[trigger] post.penalties@[k]).resolver,
            ),
{
    lemma_resolver_push(pre.resolvers@, ne);
    let n = pre.resolvers@.len() as int;
    assert forall|k: int|
        0 <= k < post.resolvers@.len() implies post.resolver_ok(
        #[trigger] post.resolvers@[k],
    ) by {
        if k < n {
            let x = pre.resolvers@[k];
            assert(pre.resolver_ok(x));
            assert(post.resolvers@[k] == x);
        } else {
            assert(post.resolvers@[k] == ne);
        }
    }
    assert forall|k: int|
        0 <= k < post.delegations@.len() implies post.delegation_ok(
        #[trigger] post.delegations@[k],
    ) by {
        let x = pre.delegations@[k];
        assert(pre.delegation_ok(x));
        assert(x.resolver != ne.account);
    }
    assert forall|k: int|
        0 <= k < post.penalties@.len() implies has_resolver(
        post.resolvers@,
        (#[trigger] post.penalties@[k]).resolver,
    ) by {
        assert(has_resolver(pre.resolvers@, pre.penalties@[k].resolver));
        assert(pre.penalties@[k].resolver != ne.account);
    }
}

// ------------------------------------------------------------- find helpers

/// Index of the balance entry of `a`, if one exists.
fn find_balance_in(v: &Vec<BalanceEntry>, a: u128) -> (r: Option<usize>)
    ensures
        match r {
            Some(i) => i < v@.len() && v@[i as int].account == a,
            None => !has_balance(v@, a),
        },
{
    let mut i: usize = 0;
    while i < v.len()
        invariant
            i <= v@.len(),
            forall|j: int| 0 <= j < i ==> (#[trigger] v@[j]).account != a,
        decreases v@.len() - i,
    {
        if v[i].account == a {
            return Some(i);
        }
        i += 1;
    }
    proof {
        if has_balance(v@, a) {
            let k = choose|k: int| 0 <= k < v@.len() && (#[trigger] v@[k]).account == a;
            assert(v@[k].account != a);
        }
    }
    None
}

impl ResolversNetwork {
    /// Index of the resolver record of `a`, if one exists.
    fn find_resolver(&self, a: u128) -> (r: Option<usize>)
        ensures
            match r {
                Some(i) => i < self.resolvers@.len() && self.resolvers@[i as int].account == a
                    && has_resolver(self.resolvers@, a),
                None => !has_resolver(self.resolvers@, a),
            },
    {
        let mut i: usize = 0;
        while i < self.resolvers.len()
            invariant
                i <= self.resolvers@.len(),
                forall|j: int| 0 <= j < i ==> (#[trigger] self.resolvers@[j]).account != a,
            decreases self.resolvers@.len() - i,
        {
            if self.resolvers[i].account == a {
                return Some(i);
            }
            i += 1;
        }
        proof {
            if has_resolver(self.resolvers@, a) {
                let k = choose|k: int|
                    0 <= k < self.resolvers@.len() && (#[trigger] self.resolvers@[k]).account
                        == a;
                assert(self.resolvers@[k].account != a);
            }
        }
        None
    }

    /// Index of the delegation record of (`d`, `r`), if one exists.
    fn find_delegation(&self, d: u128, r: u128) -> (res: Option<usize>)
        ensures
            match res {
                Some(i) => i < self.delegations@.len() && self.delegations@[i as int].delegator
                    == d && self.delegations@[i as int].resolver == r && has_delegation(
                    self.delegations@,
                    d,
                    r,
                ),
                None => !has_delegation(self.delegations@, d, r),
            },
    {
        let mut i: usize = 0;
        while i < self.delegations.len()
            invariant
                i <= self.delegations@.len(),
                forall|j: int|
                    0 <= j < i ==> !((#[trigger] self.delegations@[j]).delegator == d
                        && self.delegations@[j].resolver == r),
            decreases self.delegations@.len() - i,
        {
            if self.delegations[i].delegator == d && self.delegations[i].resolver == r {
                return Some(i);
            }
            i += 1;
        }
        proof {
            if has_delegation(self.delegations@, d, r) {
                let k = choose|k: int|
                    0 <= k < self.delegations@.len() && (#[trigger] self.delegations@[
                        k
                    ]).delegator == d && self.delegations@[k].resolver == r;
                assert(!(self.delegations@[k].delegator == d && self.delegations@[k].resolver
                    == r));
            }
        }
        None
    }

    /// Index of the first penalty lock of `r` with exactly this unlock time,
    /// if one exists.
    fn find_penalty(&self, r: u128, unlock_at: u64) -> (res: Option<usize>)
        ensures
            match res {
                Some(i) => i < self.penalties@.len() && self.penalties@[i as int].resolver == r
                    && self.penalties@[i as int].unlock_at == unlock_at,
                None => forall|j: int|
                    0 <= j < self.penalties@.len() ==> !((#[trigger] self.penalties@[j]).resolver
                        == r && self.penalties@[j].unlock_at == unlock_at),
            },
    {
        let mut i: usize = 0;
        while i < self.penalties.len()
            invariant
                i <= self.penalties@.len(),
                forall|j: int|
                    0 <= j < i ==> !((#[trigger] self.penalties@[j]).resolver == r
                        && self.penalties@[j].unlock_at == unlock_at),
            decreases self.penalties@.len() - i,
        {
            if self.penalties[i].resolver == r && self.penalties[i].unlock_at == unlock_at {
                return Some(i);
            }
            i += 1;
        }
        None
    }

    // ------------------------------------------------------------- creation

    /// An empty network under the given configuration.
    pub fn new(config: Config) -> (s: Self)
        ensures
            s.wf(),
            s.config == config,
            s.balances@.len() == 0,
            s.resolvers@.len() == 0,
            s.delegations@.len() == 0,
            s.penalties@.len() == 0,
            s.events@.len() == 0,
            s.total() == 0,
    {
        let s = ResolversNetwork {
            config,
            balances: Vec::new(),
            resolvers: Vec::new(),
            delegations: Vec::new(),
            penalties: Vec::new(),
            events: Vec::new(),
        };
        proof {
            assert(s.sum_balances() == 0);
            assert(s.sum_stakes() == 0);
            assert(s.sum_delegations() == 0);
        }
        s
    }

    // ---------------------------------------------------------- observation

    /// The most recent notification, if any was ever emitted.
    pub fn last_event(&self) -> (r: Option<Notification>)
        ensures
            match r {
                Some(ev) => self.events@.len() > 0 && ev == self.events@.last(),
                None => self.events@.len() == 0,
            },
    {
        if self.events.len() > 0 {
            Some(self.events[self.events.len() - 1])
        } else {
            None
        }
    }

    /// How many notifications have been emitted so far.
    pub fn event_count(&self) -> (n: usize)
        ensures
            n == self.events@.len(),
    {
        self.events.len()
    }

    /// The notification at position `i` of the log.
    pub fn event_at(&self, i: usize) -> (ev: Notification)
        requires
            i < self.events@.len(),
        ensures
            ev == self.events@[i as int],
    {
        self.events[i]
    }

    /// The spendable balance of an account.
    pub fn balance_of_account(&self, a: u128) -> (b: u128)
        requires
            self.wf(),
        ensures
            b == self.spendable(a),
    {
        match find_balance_in(&self.balances, a) {
            Some(i) => {
                proof {
                    lemma_balance_found(self.balances@, a, i as int);
                }
                self.balances[i].amount
            },
            None => 0,
        }
    }
}

// ---------------------------------------------------------- balance helpers

/// Add `amount` to `a`'s spendable balance, creating the entry if needed.
fn credit_balance(v: &mut Vec<BalanceEntry>, a: u128, amount: u128)
    requires
        uniq_balances(old(v)@),
        sum_by(old(v)@, bal_measure()) + amount <= u128::MAX,
        sum_by(old(v)@, bal_measure()) >= 0,
    ensures
        uniq_balances(final(v)@),
        sum_by(final(v)@, bal_measure()) == sum_by(old(v)@, bal_measure()) + amount,
        spendable_in(final(v)@, a) as int == spendable_in(old(v)@, a) + amount,
        forall|b: u128| b != a ==> spendable_in(final(v)@, b) == spendable_in(old(v)@, b),
{
    match find_balance_in(v, a) {
        Some(i) => {
            proof {
                lemma_balance_found(v@, a, i as int);
                assert(forall|j: int|
                    0 <= j < v@.len() ==> (bal_measure())(#[trigger] v@[j]) >= 0);
                lemma_sum_by_ge_elem(v@, bal_measure(), i as int);
            }
            let e = v[i];
            let ghost pre = v@;
            v.set(i, BalanceEntry { account: a, amount: e.amount + amount });
            proof {
                let ne = BalanceEntry { account: a, amount: (e.amount + amount) as u128 };
                lemma_balance_update(pre, i as int, ne);
                lemma_sum_by_update(pre, bal_measure(), i as int, ne);
            }
        },
        None => {
            let ghost pre = v@;
            v.push(BalanceEntry { account: a, amount });
            proof {
                let ne = BalanceEntry { account: a, amount };
                lemma_balance_push(pre, ne);
                lemma_sum_by_push(pre, bal_measure(), ne);
            }
        },
    }
}

/// Take `amount` out of `a`'s spendable balance; the caller has checked it
/// covers the amount.
fn debit_balance(v: &mut Vec<BalanceEntry>, a: u128, amount: u128)
    requires
        uniq_balances(old(v)@),
        amount <= spendable_in(old(v)@, a),
    ensures
        uniq_balances(final(v)@),
        sum_by(final(v)@, bal_measure()) == sum_by(old(v)@, bal_measure()) - amount,
        spendable_in(final(v)@, a) as int == spendable_in(old(v)@, a) - amount,
        forall|b: u128| b != a ==> spendable_in(final(v)@, b) == spendable_in(old(v)@, b),
{
    match find_balance_in(v, a) {
        Some(i) => {
            proof {
                lemma_balance_found(v@, a, i as int);
            }
            let e = v[i];
            let ghost pre = v@;
            v.set(i, BalanceEntry { account: a, amount: e.amount - amount });
            proof {
                let ne = BalanceEntry { account: a, amount: (e.amount - amount) as u128 };
                lemma_balance_update(pre, i as int, ne);
                lemma_sum_by_update(pre, bal_measure(), i as int, ne);
            }
        },
        None => {
            proof {
                assert(spendable_in(v@, a) == 0);
                assert(amount == 0);
            }
        },
    }
}

// ----------------------------------------------------------- stake ledger

impl ResolversNetwork {
    /// Move `amount` from the resolver's spendable balance into locked
    /// self-stake and re-evaluate eligibility.  The resolver record is
    /// created on the first self-stake above zero — a zero-amount call on
    /// an unknown account succeeds but registers nothing.  Fails with
    /// `InsufficientBalance` if the spendable balance does not cover the
    /// amount.
    pub fn self_stake(&mut self, resolver: u128, amount: u128) -> (r: Result<(), Error>)
        requires
            old(self).wf(),
        ensures
            final(self).wf(),
            final(self).config == old(self).config,
            final(self).total() == old(self).total(),
            r is Ok <==> amount <= old(self).spendable(resolver),
            match r {
                Ok(()) => {
                    &&& amount <= old(self).spendable(resolver)
                    &&& final(self).registered(resolver) == (old(self).registered(resolver)
                        || amount > 0)
                    &&& final(self).spendable(resolver) as int == old(self).spendable(resolver)
                        - amount
                    &&& forall|b: u128|
                        b != resolver ==> final(self).spendable(b) == old(self).spendable(b)
                    &&& final(self).self_stake_of(resolver) as int == old(self).self_stake_of(
                        resolver,
                    ) + amount
                    &&& final(self).locked_of(resolver) == old(self).locked_of(resolver)
                    &&& final(self).delegated_of(resolver) == old(self).delegated_of(resolver)
                    &&& final(self).credibility_of(resolver) == old(self).credibility_of(resolver)
                    &&& forall|z: u128|
                        z != resolver ==> final(self).registered(z) == old(self).registered(z)
                    &&& forall|z: u128|
                        z != resolver && old(self).registered(z) ==> final(self).resolver_rec(z)
                            == old(self).resolver_rec(z)
                    &&& final(self).delegations@ == old(self).delegations@
                    &&& final(self).penalties@ == old(self).penalties@
                    &&& events_after(
                        *old(self),
                        *final(self),
                        resolver,
                        Notification::StakeChanged {
                            resolver,
                            new_self_stake: final(self).self_stake_of(resolver),
                        },
                    )
                },
                Err(e) => {
                    &&& *final(self) == *old(self)
                    &&& e == Error::InsufficientBalance
                    &&& amount > old(self).spendable(resolver)
                },
            },
    {
        let bal = self.balance_of_account(resolver);
        if amount > bal {
            return Err(Error::InsufficientBalance);
        }
        let ghost pre = *self;
        proof {
            // bound every piece by the conserved total
            lemma_bal_sum_nonneg(pre.balances@);
            lemma_stake_sum_nonneg(pre.resolvers@);
            lemma_del_sum_nonneg(pre.delegations@);
            if has_balance(pre.balances@, resolver) {
                assert(forall|j: int|
                    0 <= j < pre.balances@.len() ==> (bal_measure())(#[trigger] pre.balances@[j])
                        >= 0);
                lemma_sum_by_ge_elem(
                    pre.balances@,
                    bal_measure(),
                    crate::lookups::balance_idx(pre.balances@, resolver),
                );
            }
        }
        debit_balance(&mut self.balances, resolver, amount);
        match self.find_resolver(resolver) {
            Some(i) => {
                proof {
                    lemma_resolver_found(pre.resolvers@, resolver, i as int);
                    lemma_rec_ok(pre, resolver);
                    assert(forall|j: int|
                        0 <= j < pre.resolvers@.len() ==> (stake_measure())(
                            #[trigger] pre.resolvers@[j],
                        ) >= 0);
                    lemma_sum_by_ge_elem(pre.resolvers@, stake_measure(), i as int);
                    lemma_del_for_sum_nonneg(pre.delegations@, resolver);
                    assert(forall|j: int|
                        0 <= j < pre.delegations@.len() ==> (del_measure_for(resolver))(
                            #[trigger] pre.delegations@[j],
                        ) <= (del_measure())(pre.delegations@[j]));
                    crate::sums::lemma_sum_by_le(
                        pre.delegations@,
                        del_measure_for(resolver),
                        del_measure(),
                    );
                }
                let e = self.resolvers[i];
                let new_stake = e.self_stake + amount;
                let mut ne = ResolverEntry {
                    account: resolver,
                    self_stake: new_stake,
                    delegated_stake: e.delegated_stake,
                    locked: e.locked,
                    credibility: e.credibility,
                    active: e.active,
                };
                let act = compute_eligible(&self.config, &ne);
                ne.active = act;
                self.resolvers.set(i, ne);
                self.events.push(
                    Notification::StakeChanged { resolver, new_self_stake: new_stake },
                );
                if act != e.active {
                    self.events.push(Notification::ActivationChanged { resolver, active: act });
                }
                proof {
                    lemma_sum_by_update(pre.resolvers@, stake_measure(), i as int, ne);
                    lemma_wf_core_update(pre, *self, i as int, ne);
                }
                Ok(())
            },
            None => {
                if amount == 0 {
                    // nothing was moved and no record comes to exist
                    self.events.push(
                        Notification::StakeChanged { resolver, new_self_stake: 0 },
                    );
                    proof {
                        assert forall|k: int|
                            0 <= k < self.resolvers@.len() implies self.resolver_ok(
                            #[trigger] self.resolvers@[k],
                        ) by {
                            assert(pre.resolver_ok(pre.resolvers@[k]));
                        }
                        assert forall|k: int|
                            0 <= k < self.delegations@.len() implies self.delegation_ok(
                            #[trigger] self.delegations@[k],
                        ) by {
                            assert(pre.delegation_ok(pre.delegations@[k]));
                        }
                    }
                    return Ok(());
                }
                proof {
                    lemma_absent_resolver_sums(pre, resolver);
                }
                let mut ne = ResolverEntry {
                    account: resolver,
                    self_stake: amount,
                    delegated_stake: 0,
                    locked: 0,
                    credibility: 0,
                    active: false,
                };
                let act = compute_eligible(&self.config, &ne);
                ne.active = act;
                self.resolvers.push(ne);
                self.events.push(
                    Notification::StakeChanged { resolver, new_self_stake: amount },
                );
                if act {
                    self.events.push(Notification::ActivationChanged { resolver, active: act });
                }
                proof {
                    lemma_sum_by_push(pre.resolvers@, stake_measure(), ne);
                    lemma_wf_core_push(pre, *self, ne);
                }
                Ok(())
            },
        }
    }

    /// Add to an existing resolver's self-stake.  Unlike `self_stake` this
    /// never creates a record: it fails with `UnknownResolver` first.
    pub fn increase_self_stake(&mut self, resolver: u128, amount: u128) -> (r: Result<
        (),
        Error,
    >)
        requires
            old(self).wf(),
        ensures
            final(self).wf(),
            final(self).config == old(self).config,
            final(self).total() == old(self).total(),
            r is Ok <==> old(self).registered(resolver) && amount <= old(self).spendable(
                resolver,
            ),
            match r {
                Ok(()) => {
                    &&& old(self).registered(resolver)
                    &&& amount <= old(self).spendable(resolver)
                    &&& final(self).spendable(resolver) as int == old(self).spendable(resolver)
                        - amount
                    &&& forall|b: u128|
                        b != resolver ==> final(self).spendable(b) == old(self).spendable(b)
                    &&& final(self).self_stake_of(resolver) as int == old(self).self_stake_of(
                        resolver,
                    ) + amount
                    &&& final(self).locked_of(resolver) == old(self).locked_of(resolver)
                    &&& final(self).delegated_of(resolver) == old(self).delegated_of(resolver)
                    &&& final(self).credibility_of(resolver) == old(self).credibility_of(resolver)
                    &&& forall|z: u128|
                        z != resolver ==> final(self).registered(z) == old(self).registered(z)
                    &&& forall|z: u128|
                        z != resolver && old(self).registered(z) ==> final(self).resolver_rec(z)
                            == old(self).resolver_rec(z)
                    &&& final(self).delegations@ == old(self).delegations@
                    &&& final(self).penalties@ == old(self).penalties@
                    &&& events_after(
                        *old(self),
                        *final(self),
                        resolver,
                        Notification::StakeChanged {
                            resolver,
                            new_self_stake: final(self).self_stake_of(resolver),
                        },
                    )
                },
                Err(e) => {
                    &&& *final(self) == *old(self)
                    &&& (e == Error::UnknownResolver <==> !old(self).registered(resolver))
                    &&& (e == Error::InsufficientBalance <==> old(self).registered(resolver)
                        && amount > old(self).spendable(resolver))
                },
            },
    {
        if self.find_resolver(resolver).is_none() {
            return Err(Error::UnknownResolver);
        }
        self.self_stake(resolver, amount)
    }

    /// Withdraw part of a resolver's self-stake back into its spendable
    /// balance.  Only the portion not frozen under a penalty lock may be
    /// withdrawn; eligibility is re-evaluated, so dropping below the
    /// minimum deactivates the resolver at once.
    pub fn decrease_self_stake(&mut self, resolver: u128, amount: u128) -> (r: Result<
        (),
        Error,
    >)
        requires
            old(self).wf(),
        ensures
            final(self).wf(),
            final(self).config == old(self).config,
            final(self).total() == old(self).total(),
            r is Ok <==> old(self).registered(resolver) && amount <= old(self).unlocked_of(
                resolver,
            ),
            match r {
                Ok(()) => {
                    &&& old(self).registered(resolver)
                    &&& amount <= old(self).unlocked_of(resolver)
                    &&& final(self).spendable(resolver) as int == old(self).spendable(resolver)
                        + amount
                    &&& forall|b: u128|
                        b != resolver ==> final(self).spendable(b) == old(self).spendable(b)
                    &&& final(self).self_stake_of(resolver) as int == old(self).self_stake_of(
                        resolver,
                    ) - amount
                    &&& final(self).locked_of(resolver) == old(self).locked_of(resolver)
                    &&& final(self).delegated_of(resolver) == old(self).delegated_of(resolver)
                    &&& final(self).credibility_of(resolver) == old(self).credibility_of(resolver)
                    &&& forall|z: u128|
                        z != resolver ==> final(self).registered(z) == old(self).registered(z)
                    &&& forall|z: u128|
                        z != resolver && old(self).registered(z) ==> final(self).resolver_rec(z)
                            == old(self).resolver_rec(z)
                    &&& final(self).delegations@ == old(self).delegations@
                    &&& final(self).penalties@ == old(self).penalties@
                    &&& events_after(
                        *old(self),
                        *final(self),
                        resolver,
                        Notification::StakeChanged {
                            resolver,
                            new_self_stake: final(self).self_stake_of(resolver),
                        },
                    )
                },
                Err(e) => {
                    &&& *final(self) == *old(self)
                    &&& (e == Error::UnknownResolver <==> !old(self).registered(resolver))
                    &&& (e == Error::InsufficientSelfStake <==> old(self).registered(resolver)
                        && amount > old(self).unlocked_of(resolver))
                },
            },
    {
        let oi = self.find_resolver(resolver);
        if oi.is_none() {
            return Err(Error::UnknownResolver);
        }
        let i = oi.unwrap();
        let ghost pre = *self;
        proof {
            lemma_resolver_found(pre.resolvers@, resolver, i as int);
            lemma_rec_ok(pre, resolver);
        }
        let e = self.resolvers[i];
        if amount > e.self_stake - e.locked {
            return Err(Error::InsufficientSelfStake);
        }
        proof {
            lemma_bal_sum_nonneg(pre.balances@);
            lemma_stake_sum_nonneg(pre.resolvers@);
            lemma_del_sum_nonneg(pre.delegations@);
            assert(forall|j: int|
                0 <= j < pre.resolvers@.len() ==> (stake_measure())(
                    #[trigger] pre.resolvers@[j],
                ) >= 0);
            lemma_sum_by_ge_elem(pre.resolvers@, stake_measure(), i as int);
        }
        let mut ne = ResolverEntry {
            account: resolver,
            self_stake: e.self_stake - amount,
            delegated_stake: e.delegated_stake,
            locked: e.locked,
            credibility: e.credibility,
            active: e.active,
        };
        proof {
            lemma_del_for_sum_nonneg(pre.delegations@, resolver);
            assert(forall|j: int|
                0 <= j < pre.delegations@.len() ==> (del_measure_for(resolver))(
                    #[trigger] pre.delegations@[j],
                ) <= (del_measure())(pre.delegations@[j]));
            crate::sums::lemma_sum_by_le(
                pre.delegations@,
                del_measure_for(resolver),
                del_measure(),
            );
        }
        let act = compute_eligible(&self.config, &ne);
        ne.active = act;
        self.resolvers.set(i, ne);
        proof {
            lemma_sum_by_update(pre.resolvers@, stake_measure(), i as int, ne);
        }
        credit_balance(&mut self.balances, resolver, amount);
        self.events.push(
            Notification::StakeChanged { resolver, new_self_stake: e.self_stake - amount },
        );
        if act != e.active {
            self.events.push(Notification::ActivationChanged { resolver, active: act });
        }
        proof {
            lemma_wf_core_update(pre, *self, i as int, ne);
        }
        Ok(())
    }
}

// ----------------------------------------------------- delegation manager

impl ResolversNetwork {
    /// Lock `amount` from the delegator's spendable balance behind a
    /// resolver, creating or topping up the delegation record, and
    /// re-evaluate the resolver's eligibility.
    pub fn delegate(&mut self, delegator: u128, resolver: u128, amount: u128) -> (r: Result<
        (),
        Error,
    >)
        requires
            old(self).wf(),
        ensures
            final(self).wf(),
            final(self).config == old(self).config,
            final(self).total() == old(self).total(),
            r is Ok <==> old(self).registered(resolver) && amount <= old(self).spendable(
                delegator,
            ),
            match r {
                Ok(()) => {
                    &&& old(self).registered(resolver)
                    &&& amount <= old(self).spendable(delegator)
                    &&& final(self).spendable(delegator) as int == old(self).spendable(delegator)
                        - amount
                    &&& forall|b: u128|
                        b != delegator ==> final(self).spendable(b) == old(self).spendable(b)
                    &&& final(self).delegation_amount(delegator, resolver) as int == old(
                        self,
                    ).delegation_amount(delegator, resolver) + amount
                    &&& final(self).pending_of(delegator, resolver) == old(self).pending_of(
                        delegator,
                        resolver,
                    )
                    &&& forall|x: u128, y: u128|
                        !(x == delegator && y == resolver) ==> final(self).delegation_amount(x, y)
                            == old(self).delegation_amount(x, y) && final(self).pending_of(x, y)
                            == old(self).pending_of(x, y)
                    &&& final(self).delegated_of(resolver) as int == old(self).delegated_of(
                        resolver,
                    ) + amount
                    &&& final(self).self_stake_of(resolver) == old(self).self_stake_of(resolver)
                    &&& final(self).locked_of(resolver) == old(self).locked_of(resolver)
                    &&& final(self).credibility_of(resolver) == old(self).credibility_of(resolver)
                    &&& forall|z: u128|
                        z != resolver ==> final(self).registered(z) == old(self).registered(z)
                    &&& forall|z: u128|
                        z != resolver && old(self).registered(z) ==> final(self).resolver_rec(z)
                            == old(self).resolver_rec(z)
                    &&& final(self).registered(resolver)
                    &&& final(self).penalties@ == old(self).penalties@
                    &&& events_after(
                        *old(self),
                        *final(self),
                        resolver,
                        Notification::Delegated { delegator, resolver, amount },
                    )
                },
                Err(e) => {
                    &&& *final(self) == *old(self)
                    &&& (e == Error::UnknownResolver <==> !old(self).registered(resolver))
                    &&& (e == Error::InsufficientBalance <==> old(self).registered(resolver)
                        && amount > old(self).spendable(delegator))
                },
            },
    {
        let oi = self.find_resolver(resolver);
        if oi.is_none() {
            return Err(Error::UnknownResolver);
        }
        let i = oi.unwrap();
        let bal = self.balance_of_account(delegator);
        if amount > bal {
            return Err(Error::InsufficientBalance);
        }
        let ghost pre = *self;
        proof {
            lemma_resolver_found(pre.resolvers@, resolver, i as int);
            lemma_rec_ok(pre, resolver);
            lemma_rec_bounds(pre, resolver);
            lemma_spendable_le_sum(pre.balances@, delegator);
            lemma_bal_sum_nonneg(pre.balances@);
            lemma_stake_sum_nonneg(pre.resolvers@);
            lemma_del_sum_nonneg(pre.delegations@);
        }
        debit_balance(&mut self.balances, delegator, amount);
        match self.find_delegation(delegator, resolver) {
            Some(j) => {
                proof {
                    lemma_delegation_found(pre.delegations@, delegator, resolver, j as int);
                    lemma_delegation_le_delegated(pre, delegator, resolver);
                }
                let de = self.delegations[j];
                let nd = DelegationEntry {
                    delegator,
                    resolver,
                    amount: de.amount + amount,
                    pending: de.pending,
                };
                self.delegations.set(j, nd);
                proof {
                    lemma_delegation_update(pre.delegations@, j as int, nd);
                    lemma_del_sums_update(pre.delegations@, j as int, nd);
                    assert(pre.delegation_ok(pre.delegations@[j as int]));
                }
            },
            None => {
                let nd = DelegationEntry { delegator, resolver, amount, pending: None };
                self.delegations.push(nd);
                proof {
                    lemma_delegation_push(pre.delegations@, nd);
                    lemma_del_sums_push(pre.delegations@, nd);
                }
            },
        }
        let e = self.resolvers[i];
        let mut ne = ResolverEntry {
            account: resolver,
            self_stake: e.self_stake,
            delegated_stake: e.delegated_stake + amount,
            locked: e.locked,
            credibility: e.credibility,
            active: e.active,
        };
        let act = compute_eligible(&self.config, &ne);
        ne.active = act;
        self.resolvers.set(i, ne);
        self.events.push(Notification::Delegated { delegator, resolver, amount });
        if act != e.active {
            self.events.push(Notification::ActivationChanged { resolver, active: act });
        }
        proof {
            lemma_sum_by_update(pre.resolvers@, stake_measure(), i as int, ne);
            assert forall|k: int|
                0 <= k < self.delegations@.len() implies pending_ok(
                #[trigger] self.delegations@[k],
            ) && has_resolver(pre.resolvers@, self.delegations@[k].resolver) by {
                if k < pre.delegations@.len() && self.delegations@[k] == pre.delegations@[k] {
                    assert(pre.delegation_ok(pre.delegations@[k]));
                }
            }
            lemma_wf_core_update(pre, *self, i as int, ne);
        }
        Ok(())
    }

    /// Ask to withdraw `amount` of a delegation.  The first phase of exit:
    /// the amount stays locked — and keeps counting toward the resolver's
    /// backing and eligibility — until the undelegation window has elapsed
    /// and the request is claimed.  At most one request may be in flight per
    /// delegation; a second one is rejected with `ExitAlreadyPending`.
    pub fn request_undelegate(
        &mut self,
        delegator: u128,
        resolver: u128,
        amount: u128,
        now: u64,
    ) -> (r: Result<(), Error>)
        requires
            old(self).wf(),
            now + old(self).config.undelegate_time <= u64::MAX,
        ensures
            final(self).wf(),
            final(self).config == old(self).config,
            final(self).total() == old(self).total(),
            r is Ok <==> old(self).registered(resolver) && has_delegation(
                old(self).delegations@,
                delegator,
                resolver,
            ) && amount <= old(self).delegation_amount(delegator, resolver) && old(
                self,
            ).pending_of(delegator, resolver) is None,
            match r {
                Ok(()) => {
                    &&& old(self).registered(resolver)
                    &&& has_delegation(old(self).delegations@, delegator, resolver)
                    &&& amount <= old(self).delegation_amount(delegator, resolver)
                    &&& old(self).pending_of(delegator, resolver) is None
                    &&& final(self).pending_of(delegator, resolver) == Some(
                        ExitRequest {
                            amount,
                            unlock_at: (now + old(self).config.undelegate_time) as u64,
                        },
                    )
                    &&& final(self).delegation_amount(delegator, resolver) == old(
                        self,
                    ).delegation_amount(delegator, resolver)
                    &&& forall|x: u128, y: u128|
                        !(x == delegator && y == resolver) ==> final(self).delegation_amount(x, y)
                            == old(self).delegation_amount(x, y) && final(self).pending_of(x, y)
                            == old(self).pending_of(x, y)
                    &&& final(self).resolvers@ == old(self).resolvers@
                    &&& final(self).balances@ == old(self).balances@
                    &&& final(self).penalties@ == old(self).penalties@
                    &&& final(self).events@ == old(self).events@.push(
                        Notification::UndelegateRequested {
                            delegator,
                            resolver,
                            amount,
                            unlock_at: (now + old(self).config.undelegate_time) as u64,
                        },
                    )
                },
                Err(e) => {
                    &&& *final(self) == *old(self)
                    &&& (e == Error::UnknownResolver <==> !old(self).registered(resolver))
                    &&& (e == Error::InsufficientDelegatedStake <==> old(self).registered(
                        resolver,
                    ) && (!has_delegation(old(self).delegations@, delegator, resolver) || amount
                        > old(self).delegation_amount(delegator, resolver)))
                    &&& (e == Error::ExitAlreadyPending <==> old(self).registered(resolver)
                        && has_delegation(old(self).delegations@, delegator, resolver) && amount
                        <= old(self).delegation_amount(delegator, resolver) && old(
                        self,
                    ).pending_of(delegator, resolver) is Some)
                },
            },
    {
        if self.find_resolver(resolver).is_none() {
            return Err(Error::UnknownResolver);
        }
        let oj = self.find_delegation(delegator, resolver);
        if oj.is_none() {
            return Err(Error::InsufficientDelegatedStake);
        }
        let j = oj.unwrap();
        let ghost pre = *self;
        proof {
            lemma_delegation_found(pre.delegations@, delegator, resolver, j as int);
        }
        let de = self.delegations[j];
        if amount > de.amount {
            return Err(Error::InsufficientDelegatedStake);
        }
        if de.pending.is_some() {
            return Err(Error::ExitAlreadyPending);
        }
        let unlock_at = now + self.config.undelegate_time;
        let nd = DelegationEntry {
            delegator,
            resolver,
            amount: de.amount,
            pending: Some(ExitRequest { amount, unlock_at }),
        };
        self.delegations.set(j, nd);
        self.events.push(
            Notification::UndelegateRequested { delegator, resolver, amount, unlock_at },
        );
        proof {
            lemma_delegation_update(pre.delegations@, j as int, nd);
            lemma_del_sums_update(pre.delegations@, j as int, nd);
            assert forall|k: int|
                0 <= k < self.resolvers@.len() implies self.resolver_ok(
                #[trigger] self.resolvers@[k],
            ) by {
                let x = pre.resolvers@[k];
                assert(pre.resolver_ok(x));
                assert(sum_by(self.delegations@, del_measure_for(x.account)) == sum_by(
                    pre.delegations@,
                    del_measure_for(x.account),
                ));
            }
            assert forall|k: int|
                0 <= k < self.delegations@.len() implies self.delegation_ok(
                #[trigger] self.delegations@[k],
            ) by {
                if k < pre.delegations@.len() && self.delegations@[k] == pre.delegations@[k] {
                    assert(pre.delegation_ok(pre.delegations@[k]));
                } else {
                    assert(pre.delegation_ok(pre.delegations@[j as int]));
                }
            }
        }
        Ok(())
    }

    /// Claim a matured undelegation request: the amount leaves the
    /// resolver's backing, returns to the delegator's spendable balance,
    /// and eligibility is re-evaluated.  Fails with `LockNotExpired` while
    /// the undelegation window is still running, or when nothing is
    /// pending.
    pub fn claim_undelegate(&mut self, delegator: u128, resolver: u128, now: u64) -> (r: Result<
        (),
        Error,
    >)
        requires
            old(self).wf(),
        ensures
            final(self).wf(),
            final(self).config == old(self).config,
            final(self).total() == old(self).total(),
            r is Ok <==> old(self).registered(resolver) && has_delegation(
                old(self).delegations@,
                delegator,
                resolver,
            ) && old(self).pending_of(delegator, resolver) is Some && now >= old(self).pending_of(
                delegator,
                resolver,
            )->Some_0.unlock_at,
            match r {
                Ok(()) => {
                    &&& old(self).registered(resolver)
                    &&& has_delegation(old(self).delegations@, delegator, resolver)
                    &&& old(self).pending_of(delegator, resolver) is Some
                    &&& now >= old(self).pending_of(delegator, resolver)->Some_0.unlock_at
                    &&& {
                        let q = old(self).pending_of(delegator, resolver)->Some_0.amount;
                        &&& final(self).spendable(delegator) as int == old(self).spendable(
                            delegator,
                        ) + q
                        &&& forall|b: u128|
                            b != delegator ==> final(self).spendable(b) == old(self).spendable(b)
                        &&& final(self).delegation_amount(delegator, resolver) as int == old(
                            self,
                        ).delegation_amount(delegator, resolver) - q
                        &&& final(self).pending_of(delegator, resolver) is None
                        &&& forall|x: u128, y: u128|
                            !(x == delegator && y == resolver) ==> final(self).delegation_amount(
                                x,
                                y,
                            ) == old(self).delegation_amount(x, y) && final(self).pending_of(x, y)
                                == old(self).pending_of(x, y)
                        &&& final(self).delegated_of(resolver) as int == old(self).delegated_of(
                            resolver,
                        ) - q
                        &&& final(self).self_stake_of(resolver) == old(self).self_stake_of(
                            resolver,
                        )
                        &&& final(self).locked_of(resolver) == old(self).locked_of(resolver)
                        &&& final(self).credibility_of(resolver) == old(self).credibility_of(
                            resolver,
                        )
                        &&& forall|z: u128|
                            z != resolver ==> final(self).registered(z) == old(self).registered(z)
                        &&& forall|z: u128|
                            z != resolver && old(self).registered(z) ==> final(self).resolver_rec(
                                z,
                            ) == old(self).resolver_rec(z)
                        &&& final(self).penalties@ == old(self).penalties@
                        &&& events_after(
                            *old(self),
                            *final(self),
                            resolver,
                            Notification::UndelegateClaimed { delegator, resolver, amount: q },
                        )
                    }
                },
                Err(e) => {
                    &&& *final(self) == *old(self)
                    &&& (e == Error::UnknownResolver <==> !old(self).registered(resolver))
                    &&& (e == Error::LockNotExpired <==> old(self).registered(resolver) && !(
                    has_delegation(old(self).delegations@, delegator, resolver) && old(
                        self,
                    ).pending_of(delegator, resolver) is Some && now >= old(self).pending_of(
                        delegator,
                        resolver,
                    )->Some_0.unlock_at))
                },
            },
    {
        let oi = self.find_resolver(resolver);
        if oi.is_none() {
            return Err(Error::UnknownResolver);
        }
        let i = oi.unwrap();
        let oj = self.find_delegation(delegator, resolver);
        if oj.is_none() {
            return Err(Error::LockNotExpired);
        }
        let j = oj.unwrap();
        let ghost pre = *self;
        proof {
            lemma_resolver_found(pre.resolvers@, resolver, i as int);
            lemma_rec_ok(pre, resolver);
            lemma_delegation_found(pre.delegations@, delegator, resolver, j as int);
            assert(pre.delegation_ok(pre.delegations@[j as int]));
            lemma_delegation_le_delegated(pre, delegator, resolver);
            lemma_rec_bounds(pre, resolver);
            lemma_bal_sum_nonneg(pre.balances@);
            lemma_stake_sum_nonneg(pre.resolvers@);
            lemma_del_sum_nonneg(pre.delegations@);
        }
        let de = self.delegations[j];
        let q = match de.pending {
            Some(q) => q,
            None => {
                return Err(Error::LockNotExpired);
            },
        };
        if now < q.unlock_at {
            return Err(Error::LockNotExpired);
        }
        let nd = DelegationEntry {
            delegator,
            resolver,
            amount: de.amount - q.amount,
            pending: None,
        };
        self.delegations.set(j, nd);
        proof {
            lemma_delegation_update(pre.delegations@, j as int, nd);
            lemma_del_sums_update(pre.delegations@, j as int, nd);
        }
        let e = self.resolvers[i];
        let mut ne = ResolverEntry {
            account: resolver,
            self_stake: e.self_stake,
            delegated_stake: e.delegated_stake - q.amount,
            locked: e.locked,
            credibility: e.credibility,
            active: e.active,
        };
        let act = compute_eligible(&self.config, &ne);
        ne.active = act;
        self.resolvers.set(i, ne);
        proof {
            lemma_sum_by_update(pre.resolvers@, stake_measure(), i as int, ne);
        }
        credit_balance(&mut self.balances, delegator, q.amount);
        self.events.push(
            Notification::UndelegateClaimed { delegator, resolver, amount: q.amount },
        );
        if act != e.active {
            self.events.push(Notification::ActivationChanged { resolver, active: act });
        }
        proof {
            assert forall|k: int|
                0 <= k < self.delegations@.len() implies pending_ok(
                #[trigger] self.delegations@[k],
            ) && has_resolver(pre.resolvers@, self.delegations@[k].resolver) by {
                if k < pre.delegations@.len() && self.delegations@[k] == pre.delegations@[k] {
                    assert(pre.delegation_ok(pre.delegations@[k]));
                }
            }
            lemma_wf_core_update(pre, *self, i as int, ne);
        }
        Ok(())
    }
}

// ------------------------------------------------------- penalty manager

impl ResolversNetwork {
    /// Freeze `amount` of a resolver's self-stake under a new penalty lock
    /// until `now` plus the penalty lock time.  The frozen amount stops
    /// counting toward eligibility at once — which can deactivate the
    /// resolver instantly — but never leaves the self-stake.
    pub fn penalize(&mut self, resolver: u128, amount: u128, now: u64) -> (r: Result<(), Error>)
        requires
            old(self).wf(),
            now + old(self).config.penalty_token_lock_time <= u64::MAX,
        ensures
            final(self).wf(),
            final(self).config == old(self).config,
            final(self).total() == old(self).total(),
            r is Ok <==> old(self).registered(resolver) && amount <= old(self).unlocked_of(
                resolver,
            ),
            match r {
                Ok(()) => {
                    &&& old(self).registered(resolver)
                    &&& amount <= old(self).unlocked_of(resolver)
                    &&& final(self).locked_of(resolver) as int == old(self).locked_of(resolver)
                        + amount
                    &&& final(self).unlocked_of(resolver) == old(self).unlocked_of(resolver)
                        - amount
                    &&& final(self).self_stake_of(resolver) == old(self).self_stake_of(resolver)
                    &&& final(self).delegated_of(resolver) == old(self).delegated_of(resolver)
                    &&& final(self).credibility_of(resolver) == old(self).credibility_of(resolver)
                    &&& forall|z: u128|
                        z != resolver ==> final(self).registered(z) == old(self).registered(z)
                    &&& forall|z: u128|
                        z != resolver && old(self).registered(z) ==> final(self).resolver_rec(z)
                            == old(self).resolver_rec(z)
                    &&& final(self).balances@ == old(self).balances@
                    &&& final(self).delegations@ == old(self).delegations@
                    &&& final(self).penalties@ == old(self).penalties@.push(
                        PenaltyEntry {
                            resolver,
                            amount,
                            unlock_at: (now + old(self).config.penalty_token_lock_time) as u64,
                        },
                    )
                    &&& events_after(
                        *old(self),
                        *final(self),
                        resolver,
                        Notification::Penalized {
                            resolver,
                            amount,
                            unlock_at: (now + old(self).config.penalty_token_lock_time) as u64,
                        },
                    )
                },
                Err(e) => {
                    &&& *final(self) == *old(self)
                    &&& (e == Error::UnknownResolver <==> !old(self).registered(resolver))
                    &&& (e == Error::InsufficientSelfStake <==> old(self).registered(resolver)
                        && amount > old(self).unlocked_of(resolver))
                },
            },
    {
        let oi = self.find_resolver(resolver);
        if oi.is_none() {
            return Err(Error::UnknownResolver);
        }
        let i = oi.unwrap();
        let ghost pre = *self;
        proof {
            lemma_resolver_found(pre.resolvers@, resolver, i as int);
            lemma_rec_ok(pre, resolver);
            lemma_rec_bounds(pre, resolver);
            lemma_bal_sum_nonneg(pre.balances@);
        }
        let e = self.resolvers[i];
        if amount > e.self_stake - e.locked {
            return Err(Error::InsufficientSelfStake);
        }
        let unlock_at = now + self.config.penalty_token_lock_time;
        let pe = PenaltyEntry { resolver, amount, unlock_at };
        self.penalties.push(pe);
        proof {
            lemma_pen_sums_push(pre.penalties@, pe);
        }
        let mut ne = ResolverEntry {
            account: resolver,
            self_stake: e.self_stake,
            delegated_stake: e.delegated_stake,
            locked: e.locked + amount,
            credibility: e.credibility,
            active: e.active,
        };
        let act = compute_eligible(&self.config, &ne);
        ne.active = act;
        self.resolvers.set(i, ne);
        self.events.push(Notification::Penalized { resolver, amount, unlock_at });
        if act != e.active {
            self.events.push(Notification::ActivationChanged { resolver, active: act });
        }
        proof {
            lemma_sum_by_update(pre.resolvers@, stake_measure(), i as int, ne);
            assert forall|k: int|
                0 <= k < self.penalties@.len() implies has_resolver(
                pre.resolvers@,
                (#[trigger] self.penalties@[k]).resolver,
            ) by {
                if k < pre.penalties@.len() {
                    assert(self.penalties@[k] == pre.penalties@[k]);
                } else {
                    assert(self.penalties@[k] == pe);
                }
            }
            assert forall|k: int|
                0 <= k < self.delegations@.len() implies pending_ok(
                #[trigger] self.delegations@[k],
            ) && has_resolver(pre.resolvers@, self.delegations@[k].resolver) by {
                assert(pre.delegation_ok(pre.delegations@[k]));
            }
            lemma_wf_core_update(pre, *self, i as int, ne);
        }
        Ok(())
    }

    /// Release the first penalty lock of `resolver` carrying exactly this
    /// unlock time, returning the released amount into the unlocked
    /// self-stake (it never left the self-stake, so no funds move) and
    /// re-evaluating eligibility.  Locks are claimed per lock, keyed by
    /// their own unlock time.
    pub fn claim_penalty_release(&mut self, resolver: u128, unlock_at: u64, now: u64) -> (r:
        Result<u128, Error>)
        requires
            old(self).wf(),
        ensures
            final(self).wf(),
            final(self).config == old(self).config,
            final(self).total() == old(self).total(),
            r is Ok <==> old(self).registered(resolver) && has_penalty(
                old(self).penalties@,
                resolver,
                unlock_at,
            ) && now >= unlock_at,
            match r {
                Ok(amt) => {
                    &&& old(self).registered(resolver)
                    &&& has_penalty(old(self).penalties@, resolver, unlock_at)
                    &&& now >= unlock_at
                    &&& (exists|k: int|
                        0 <= k < old(self).penalties@.len()
                            && (#[trigger] old(self).penalties@[k]).resolver == resolver
                            && old(self).penalties@[k].unlock_at == unlock_at
                            && old(self).penalties@[k].amount == amt
                            && final(self).penalties@ == old(self).penalties@.remove(k))
                    &&& final(self).locked_of(resolver) as int == old(self).locked_of(resolver)
                        - amt
                    &&& final(self).unlocked_of(resolver) == old(self).unlocked_of(resolver)
                        + amt
                    &&& final(self).self_stake_of(resolver) == old(self).self_stake_of(resolver)
                    &&& final(self).delegated_of(resolver) == old(self).delegated_of(resolver)
                    &&& final(self).credibility_of(resolver) == old(self).credibility_of(resolver)
                    &&& forall|z: u128|
                        z != resolver ==> final(self).registered(z) == old(self).registered(z)
                    &&& forall|z: u128|
                        z != resolver && old(self).registered(z) ==> final(self).resolver_rec(z)
                            == old(self).resolver_rec(z)
                    &&& final(self).balances@ == old(self).balances@
                    &&& final(self).delegations@ == old(self).delegations@
                    &&& events_after(
                        *old(self),
                        *final(self),
                        resolver,
                        Notification::PenaltyReleased { resolver, amount: amt },
                    )
                },
                Err(e) => {
                    &&& *final(self) == *old(self)
                    &&& (e == Error::UnknownResolver <==> !old(self).registered(resolver))
                    &&& (e == Error::LockNotExpired <==> old(self).registered(resolver) && !(
                    has_penalty(old(self).penalties@, resolver, unlock_at) && now >= unlock_at))
                },
            },
    {
        let oi = self.find_resolver(resolver);
        if oi.is_none() {
            return Err(Error::UnknownResolver);
        }
        let i = oi.unwrap();
        let ok = self.find_penalty(resolver, unlock_at);
        if ok.is_none() {
            proof {
                if has_penalty(self.penalties@, resolver, unlock_at) {
                    let w = choose|w: int|
                        0 <= w < self.penalties@.len() && (#[trigger] self.penalties@[
                            w
                        ]).resolver == resolver && self.penalties@[w].unlock_at == unlock_at;
                    assert(!(self.penalties@[w].resolver == resolver && self.penalties@[
                        w
                    ].unlock_at == unlock_at));
                }
            }
            return Err(Error::LockNotExpired);
        }
        let k = ok.unwrap();
        if now < unlock_at {
            return Err(Error::LockNotExpired);
        }
        let ghost pre = *self;
        proof {
            lemma_resolver_found(pre.resolvers@, resolver, i as int);
            lemma_rec_ok(pre, resolver);
            lemma_rec_bounds(pre, resolver);
            lemma_bal_sum_nonneg(pre.balances@);
            assert(forall|j: int|
                0 <= j < pre.penalties@.len() ==> (pen_measure_for(resolver))(
                    #[trigger] pre.penalties@[j],
                ) >= 0);
            lemma_sum_by_ge_elem(pre.penalties@, pen_measure_for(resolver), k as int);
        }
        let amt = self.penalties.remove(k).amount;
        proof {
            lemma_pen_sums_remove(pre.penalties@, k as int);
        }
        let e = self.resolvers[i];
        let mut ne = ResolverEntry {
            account: resolver,
            self_stake: e.self_stake,
            delegated_stake: e.delegated_stake,
            locked: e.locked - amt,
            credibility: e.credibility,
            active: e.active,
        };
        let act = compute_eligible(&self.config, &ne);
        ne.active = act;
        self.resolvers.set(i, ne);
        self.events.push(Notification::PenaltyReleased { resolver, amount: amt });
        if act != e.active {
            self.events.push(Notification::ActivationChanged { resolver, active: act });
        }
        proof {
            lemma_sum_by_update(pre.resolvers@, stake_measure(), i as int, ne);
            assert forall|j: int|
                0 <= j < self.penalties@.len() implies has_resolver(
                pre.resolvers@,
                (#[trigger] self.penalties@[j]).resolver,
            ) by {
                assert(self.penalties@ == pre.penalties@.remove(k as int));
                if j < k {
                    assert(self.penalties@[j] == pre.penalties@[j]);
                } else {
                    assert(self.penalties@[j] == pre.penalties@[j + 1]);
                }
            }
            assert forall|j: int|
                0 <= j < self.delegations@.len() implies pending_ok(
                #[trigger] self.delegations@[j],
            ) && has_resolver(pre.resolvers@, self.delegations@[j].resolver) by {
                assert(pre.delegation_ok(pre.delegations@[j]));
            }
            lemma_wf_core_update(pre, *self, i as int, ne);
        }
        Ok(amt)
    }
}

// ------------------------------------------------------------------ genesis

/// Measure of a genesis entry: the endowed amount.
pub open spec fn endowment_measure() -> spec_fn((u128, u128)) -> int {
    |p: (u128, u128)| p.1 as int
}

/// Some genesis entry among the first `n` endows this account.
pub open spec fn among(accounts: Seq<(u128, u128)>, n: int, a: u128) -> bool {
    exists|k: int| 0 <= k < n && (#[trigger] accounts[k]).0 == a
}

/// No two genesis entries endow the same account.
pub open spec fn uniq_accounts(accounts: Seq<(u128, u128)>) -> bool {
    forall|i: int, j: int| 0 <= i < j < accounts.len() ==> accounts[i].0 != accounts[j].0
}

impl ResolversNetwork {
    /// A fresh network whose accounts start with the given spendable
    /// endowments and nothing staked.
    pub fn genesis(config: Config, accounts: &Vec<(u128, u128)>) -> (s: Self)
        requires
            uniq_accounts(accounts@),
            sum_by(accounts@, endowment_measure()) <= u128::MAX,
        ensures
            s.wf(),
            s.config == config,
            s.resolvers@.len() == 0,
            s.delegations@.len() == 0,
            s.penalties@.len() == 0,
            s.events@.len() == 0,
            forall|k: int|
                0 <= k < accounts@.len() ==> s.spendable((#[trigger] accounts@[k]).0)
                    == accounts@[k].1,
            forall|a: u128| !among(accounts@, accounts@.len() as int, a) ==> s.spendable(a) == 0,
            s.total() == sum_by(accounts@, endowment_measure()),
    {
        let mut s = Self::new(config);
        let mut i: usize = 0;
        proof {
            assert(accounts@.take(0) =~= Seq::<(u128, u128)>::empty());
            assert(forall|j: int|
                0 <= j < accounts@.len() ==> (endowment_measure())(#[trigger] accounts@[j])
                    >= 0);
        }
        while i < accounts.len()
            invariant
                i <= accounts@.len(),
                s.config == config,
                s.resolvers@.len() == 0,
                s.delegations@.len() == 0,
                s.penalties@.len() == 0,
                s.events@.len() == 0,
                uniq_accounts(accounts@),
                uniq_balances(s.balances@),
                sum_by(accounts@, endowment_measure()) <= u128::MAX,
                forall|j: int|
                    0 <= j < accounts@.len() ==> (endowment_measure())(#[trigger] accounts@[j])
                        >= 0,
                sum_by(s.balances@, bal_measure()) == sum_by(
                    accounts@.take(i as int),
                    endowment_measure(),
                ),
                forall|k: int|
                    0 <= k < i ==> spendable_in(s.balances@, (#[trigger] accounts@[k]).0)
                        == accounts@[k].1,
                forall|a: u128| !among(accounts@, i as int, a) ==> spendable_in(s.balances@, a)
                    == 0,
            decreases accounts@.len() - i,
        {
            let ghost prebal = s.balances@;
            let (a, m) = accounts[i];
            proof {
                crate::sums::lemma_sum_by_split(accounts@, endowment_measure(), i as int);
                lemma_sum_by_nonneg(accounts@.skip(i as int), endowment_measure());
                assert(forall|j: int|
                    0 <= j < accounts@.skip(i as int).len() ==> (endowment_measure())(
                        #[trigger] accounts@.skip(i as int)[j],
                    ) >= 0);
                lemma_sum_by_nonneg(accounts@.skip(i as int), endowment_measure());
                assert((endowment_measure())(accounts@[i as int]) == m as int);
                lemma_sum_by_ge_elem(accounts@.skip(i as int), endowment_measure(), 0);
                assert(accounts@.skip(i as int)[0] == accounts@[i as int]);
                lemma_bal_sum_nonneg(s.balances@);
                // this account was not endowed yet, so its balance is zero
                assert(!among(accounts@, i as int, a)) by {
                    if among(accounts@, i as int, a) {
                        let k = choose|k: int|
                            0 <= k < i && (#[trigger] accounts@[k]).0 == a;
                        assert(accounts@[k].0 != accounts@[i as int].0);
                    }
                }
            }
            credit_balance(&mut s.balances, a, m);
            proof {
                assert(accounts@.take(i as int + 1) =~= accounts@.take(i as int).push(
                    accounts@[i as int],
                ));
                lemma_sum_by_push(
                    accounts@.take(i as int),
                    endowment_measure(),
                    accounts@[i as int],
                );
                assert forall|a2: u128|
                    !among(accounts@, i as int + 1, a2) implies spendable_in(s.balances@, a2)
                    == 0 by {
                    assert(!among(accounts@, i as int, a2));
                    assert(a2 != a);
                    assert(spendable_in(prebal, a2) == 0);
                }
            }
            i += 1;
        }
        proof {
            assert(accounts@.take(accounts@.len() as int) =~= accounts@);
        }
        s
    }
}

// ----------------------------------------------------------------- the law

/// In every well-formed state, at every observed point: a resolver is
/// active exactly when it is registered, its unlocked self-stake plus
/// delegated stake reaches the activation amount, its unlocked self-stake
/// alone reaches the minimum, and its credibility clears the required
/// score.  Eligibility is never a cached decision that can drift.
pub proof fn lemma_active_iff_eligible(s: ResolversNetwork, r: u128)
    requires
        s.wf(),
    ensures
        s.active_of(r) <==> {
            &&& s.registered(r)
            &&& s.unlocked_of(r) + s.delegated_of(r) >= s.config.activation_stake_amount
            &&& s.unlocked_of(r) >= s.config.minimum_self_stake
            &&& s.credibility_of(r) >= s.config.required_credibility
        },
{
    if s.registered(r) {
        lemma_rec_ok(s, r);
    }
}

/// Penalized funds are excluded from the unlocked self-stake exactly and
/// strictly: in every well-formed state the unlocked portion is the
/// self-stake minus the sum of the outstanding penalty locks, so the
/// exclusion holds from the instant a penalty succeeds until its release
/// succeeds.
pub proof fn lemma_penalized_funds_excluded(s: ResolversNetwork, r: u128)
    requires
        s.wf(),
        s.registered(r),
    ensures
        s.unlocked_of(r) == s.self_stake_of(r) - sum_by(s.penalties@, pen_measure_for(r)),
{
    lemma_rec_ok(s, r);
}

// -------------------------------------------------- eligibility evaluator

impl ResolversNetwork {
    /// Mirror in a credibility score reported by the external scoring
    /// service and re-evaluate eligibility.  No notification is emitted
    /// beyond `ActivationChanged`, and only when the flag actually flips;
    /// reporting the unchanged score changes nothing at all.
    ///
    /// A score can be mirrored only once the resolver has a record, so a
    /// freshly registered resolver stands at credibility zero until its
    /// score is first reported; report it right after the first self-stake
    /// when the scoring service already holds one.
    pub fn update_credibility(&mut self, resolver: u128, score: u32) -> (r: Result<(), Error>)
        requires
            old(self).wf(),
        ensures
            final(self).wf(),
            final(self).config == old(self).config,
            final(self).total() == old(self).total(),
            match r {
                Ok(()) => {
                    &&& old(self).registered(resolver)
                    &&& final(self).credibility_of(resolver) == score
                    &&& final(self).self_stake_of(resolver) == old(self).self_stake_of(resolver)
                    &&& final(self).locked_of(resolver) == old(self).locked_of(resolver)
                    &&& final(self).delegated_of(resolver) == old(self).delegated_of(resolver)
                    &&& forall|z: u128|
                        z != resolver ==> final(self).registered(z) == old(self).registered(z)
                    &&& forall|z: u128|
                        z != resolver && old(self).registered(z) ==> final(self).resolver_rec(z)
                            == old(self).resolver_rec(z)
                    &&& final(self).balances@ == old(self).balances@
                    &&& final(self).delegations@ == old(self).delegations@
                    &&& final(self).penalties@ == old(self).penalties@
                    &&& (if final(self).active_of(resolver) == old(self).active_of(resolver) {
                        final(self).events@ == old(self).events@
                    } else {
                        final(self).events@ == old(self).events@.push(
                            Notification::ActivationChanged {
                                resolver,
                                active: final(self).active_of(resolver),
                            },
                        )
                    })
                    &&& (score == old(self).credibility_of(resolver) ==> *final(self) == *old(
                        self,
                    ))
                },
                Err(e) => {
                    &&& *final(self) == *old(self)
                    &&& e == Error::UnknownResolver
                    &&& !old(self).registered(resolver)
                },
            },
    {
        let oi = self.find_resolver(resolver);
        if oi.is_none() {
            return Err(Error::UnknownResolver);
        }
        let i = oi.unwrap();
        let ghost pre = *self;
        proof {
            lemma_resolver_found(pre.resolvers@, resolver, i as int);
            lemma_rec_ok(pre, resolver);
            lemma_rec_bounds(pre, resolver);
            lemma_bal_sum_nonneg(pre.balances@);
        }
        let e = self.resolvers[i];
        if score == e.credibility {
            return Ok(());
        }
        let mut ne = ResolverEntry {
            account: resolver,
            self_stake: e.self_stake,
            delegated_stake: e.delegated_stake,
            locked: e.locked,
            credibility: score,
            active: e.active,
        };
        let act = compute_eligible(&self.config, &ne);
        ne.active = act;
        self.resolvers.set(i, ne);
        if act != e.active {
            self.events.push(Notification::ActivationChanged { resolver, active: act });
        }
        proof {
            lemma_sum_by_update(pre.resolvers@, stake_measure(), i as int, ne);
            assert forall|k: int|
                0 <= k < self.delegations@.len() implies pending_ok(
                #[trigger] self.delegations@[k],
            ) && has_resolver(pre.resolvers@, self.delegations@[k].resolver) by {
                assert(pre.delegation_ok(pre.delegations@[k]));
            }
            lemma_wf_core_update(pre, *self, i as int, ne);
        }
        Ok(())
    }

    /// Re-run the eligibility evaluator on unchanged inputs.  In a
    /// well-formed state the derived flag already equals the rule, so this
    /// provably changes nothing and emits no notification.
    pub fn reevaluate(&mut self, resolver: u128) -> (r: Result<(), Error>)
        requires
            old(self).wf(),
        ensures
            final(self).wf(),
            *final(self) == *old(self),
            r is Ok <==> old(self).registered(resolver),
            r is Err ==> r == Result::<(), Error>::Err(Error::UnknownResolver),
    {
        let oi = self.find_resolver(resolver);
        if oi.is_none() {
            return Err(Error::UnknownResolver);
        }
        let i = oi.unwrap();
        let ghost pre = *self;
        proof {
            lemma_resolver_found(pre.resolvers@, resolver, i as int);
            lemma_rec_ok(pre, resolver);
            lemma_rec_bounds(pre, resolver);
            lemma_bal_sum_nonneg(pre.balances@);
            lemma_stake_sum_nonneg(pre.resolvers@);
            lemma_del_sum_nonneg(pre.delegations@);
        }
        let e = self.resolvers[i];
        let act = compute_eligible(&self.config, &e);
        proof {
            assert(act == e.active);
        }
        Ok(())
    }

    /// Read-only snapshot of a resolver's stake, eligibility and locks.
    pub fn query_resolver_state(&self, resolver: u128) -> (r: Option<ResolverStateView>)
        requires
            self.wf(),
        ensures
            match r {
                Some(v) => {
                    &&& self.registered(resolver)
                    &&& v.self_stake == self.self_stake_of(resolver)
                    &&& v.delegated_stake == self.delegated_of(resolver)
                    &&& v.locked == self.locked_of(resolver)
                    &&& v.credibility == self.credibility_of(resolver)
                    &&& v.active == self.active_of(resolver)
                    &&& v.locks@ == plocks_of(self.penalties@, resolver)
                },
                None => !self.registered(resolver),
            },
    {
        let oi = self.find_resolver(resolver);
        if oi.is_none() {
            return None;
        }
        let i = oi.unwrap();
        proof {
            lemma_resolver_found(self.resolvers@, resolver, i as int);
        }
        let e = self.resolvers[i];
        let mut locks: Vec<PenaltyEntry> = Vec::new();
        let mut k: usize = 0;
        proof {
            assert(self.penalties@.take(0) =~= Seq::<PenaltyEntry>::empty());
        }
        while k < self.penalties.len()
            invariant
                k <= self.penalties@.len(),
                locks@ == plocks_of(self.penalties@.take(k as int), resolver),
            decreases self.penalties@.len() - k,
        {
            let ghost taken = self.penalties@.take(k as int);
            let pe = self.penalties[k];
            if pe.resolver == resolver {
                locks.push(pe);
            }
            proof {
                assert(self.penalties@.take(k as int + 1) =~= taken.push(pe));
                lemma_plocks_push(taken, pe, resolver);
            }
            k += 1;
        }
        proof {
            assert(self.penalties@.take(self.penalties@.len() as int) =~= self.penalties@);
        }
        Some(
            ResolverStateView {
                self_stake: e.self_stake,
                delegated_stake: e.delegated_stake,
                locked: e.locked,
                credibility: e.credibility,
                active: e.active,
                locks,
            },
        )
    }
}

} // verus!
