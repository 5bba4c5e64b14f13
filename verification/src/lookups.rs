//! First-class lookups into the keyed record sequences: uniqueness of keys,
//! membership, the entry under a key, and how all three behave when one
//! entry is replaced in place or a fresh key is appended.

use vstd::prelude::*;
use crate::records::{BalanceEntry, DelegationEntry, ResolverEntry};

verus! {

// ---------------------------------------------------------------- resolvers

/// No two resolver entries share an account.
pub open spec fn uniq_resolvers(s: Seq<ResolverEntry>) -> bool {
    forall|i: int, j: int| 0 <= i < j < s.len() ==> s[i].account != s[j].account
}

/// Some entry carries this account.
pub open spec fn has_resolver(s: Seq<ResolverEntry>, a: u128) -> bool {
    exists|i: int| 0 <= i < s.len() && (#[trigger] s[i]).account == a
}

/// The index of the entry carrying this account (unique under
/// `uniq_resolvers`).
pub open spec fn resolver_idx(s: Seq<ResolverEntry>, a: u128) -> int {
    choose|i: int| 0 <= i < s.len() && (#[trigger] s[i]).account == a
}

/// The entry carrying this account.
pub open spec fn resolver_of(s: Seq<ResolverEntry>, a: u128) -> ResolverEntry
    recommends
        has_resolver(s, a),
{
    s[resolver_idx(s, a)]
}

/// Replacing entry `i` with one under the same account leaves every other
/// account's entry, and membership everywhere, unchanged.
pub proof fn lemma_resolver_update(s: Seq<ResolverEntry>, i: int, e: ResolverEntry)
    requires
        uniq_resolvers(s),
        0 <= i < s.len(),
        e.account == s[i].account,
    ensures
        uniq_resolvers(s.update(i, e)),
        has_resolver(s.update(i, e), e.account),
        resolver_of(s.update(i, e), e.account) == e,
        forall|b: u128| #[trigger] has_resolver(s.update(i, e), b) == has_resolver(s, b),
        forall|b: u128|
            b != e.account && has_resolver(s, b) ==> #[trigger] resolver_of(s.update(i, e), b)
                == resolver_of(s, b),
{
    let t = s.update(i, e);
    assert(forall|k: int| 0 <= k < t.len() ==> (#[trigger] t[k]).account == s[k].account);
    assert forall|b: u128| #[trigger] has_resolver(t, b) == has_resolver(s, b) by {
        if has_resolver(t, b) {
            let k = choose|k: int| 0 <= k < t.len() && (#[trigger] t[k]).account == b;
            assert(s[k].account == b);
        }
        if has_resolver(s, b) {
            let k = choose|k: int| 0 <= k < s.len() && (#[trigger] s[k]).account == b;
            assert(t[k].account == b);
        }
    }
    assert(t[i].account == e.account);
    let j = resolver_idx(t, e.account);
    assert(0 <= j < t.len() && t[j].account == e.account);
    assert(j == i) by {
        if j < i {
            assert(t[j].account != t[i].account);
        } else if j > i {
            assert(t[i].account != t[j].account);
        }
    }
    assert forall|b: u128| b != e.account && has_resolver(s, b) implies #[trigger] resolver_of(
        t,
        b,
    ) == resolver_of(s, b) by {
        let j1 = resolver_idx(s, b);
        assert(0 <= j1 < s.len() && s[j1].account == b);
        assert(t[j1].account == b);
        let j2 = resolver_idx(t, b);
        assert(0 <= j2 < t.len() && t[j2].account == b);
        assert(j2 == j1) by {
            if j2 < j1 {
                assert(t[j2].account != t[j1].account);
            } else if j2 > j1 {
                assert(t[j1].account != t[j2].account);
            }
        }
        assert(j1 != i);
    }
}

/// Appending an entry under a fresh account keeps keys unique and leaves
/// every existing account's entry unchanged.
pub proof fn lemma_resolver_push(s: Seq<ResolverEntry>, e: ResolverEntry)
    requires
        uniq_resolvers(s),
        !has_resolver(s, e.account),
    ensures
        uniq_resolvers(s.push(e)),
        has_resolver(s.push(e), e.account),
        resolver_of(s.push(e), e.account) == e,
        forall|b: u128|
            b != e.account ==> #[trigger] has_resolver(s.push(e), b) == has_resolver(s, b),
        forall|b: u128|
            b != e.account && has_resolver(s, b) ==> #[trigger] resolver_of(s.push(e), b)
                == resolver_of(s, b),
{
    let t = s.push(e);
    assert(forall|k: int| 0 <= k < s.len() ==> (#[trigger] t[k]) == s[k]);
    assert(t[s.len() as int] == e);
    assert forall|i: int, j: int| 0 <= i < j < t.len() implies t[i].account != t[j].account by {
        if j < s.len() {
        } else {
            assert(t[j] == e);
            assert(s[i].account != e.account);
        }
    }
    let j = resolver_idx(t, e.account);
    assert(0 <= j < t.len() && t[j].account == e.account);
    assert(j == s.len()) by {
        if j < s.len() {
            assert(s[j].account == e.account);
        }
    }
    assert forall|b: u128| b != e.account implies #[trigger] has_resolver(t, b) == has_resolver(
        s,
        b,
    ) by {
        if has_resolver(t, b) {
            let k = choose|k: int| 0 <= k < t.len() && (#[trigger] t[k]).account == b;
            assert(k < s.len());
            assert(s[k].account == b);
        }
        if has_resolver(s, b) {
            let k = choose|k: int| 0 <= k < s.len() && (#[trigger] s[k]).account == b;
            assert(t[k].account == b);
        }
    }
    assert forall|b: u128| b != e.account && has_resolver(s, b) implies #[trigger] resolver_of(
        t,
        b,
    ) == resolver_of(s, b) by {
        let j1 = resolver_idx(s, b);
        assert(0 <= j1 < s.len() && s[j1].account == b);
        assert(t[j1].account == b);
        let j2 = resolver_idx(t, b);
        assert(0 <= j2 < t.len() && t[j2].account == b);
        assert(j2 < s.len()) by {
            if j2 == s.len() {
                assert(t[j2] == e);
            }
        }
        assert(j2 == j1) by {
            if j2 < j1 {
                assert(s[j2].account != s[j1].account);
            } else if j2 > j1 {
                assert(s[j1].account != s[j2].account);
            }
        }
    }
}

// ----------------------------------------------------------------- balances

/// No two balance entries share an account.
pub open spec fn uniq_balances(s: Seq<BalanceEntry>) -> bool {
    forall|i: int, j: int| 0 <= i < j < s.len() ==> s[i].account != s[j].account
}

/// Some entry carries this account.
pub open spec fn has_balance(s: Seq<BalanceEntry>, a: u128) -> bool {
    exists|i: int| 0 <= i < s.len() && (#[trigger] s[i]).account == a
}

/// The index of the entry carrying this account (unique under
/// `uniq_balances`).
pub open spec fn balance_idx(s: Seq<BalanceEntry>, a: u128) -> int {
    choose|i: int| 0 <= i < s.len() && (#[trigger] s[i]).account == a
}

/// The entry carrying this account.
pub open spec fn balance_of(s: Seq<BalanceEntry>, a: u128) -> BalanceEntry
    recommends
        has_balance(s, a),
{
    s[balance_idx(s, a)]
}

/// Replacing entry `i` with one under the same account leaves every other
/// account's entry, and membership everywhere, unchanged.
pub proof fn lemma_balance_update(s: Seq<BalanceEntry>, i: int, e: BalanceEntry)
    requires
        uniq_balances(s),
        0 <= i < s.len(),
        e.account == s[i].account,
    ensures
        uniq_balances(s.update(i, e)),
        has_balance(s.update(i, e), e.account),
        balance_of(s.update(i, e), e.account) == e,
        forall|b: u128| #[trigger] has_balance(s.update(i, e), b) == has_balance(s, b),
        forall|b: u128|
            b != e.account && has_balance(s, b) ==> #[trigger] balance_of(s.update(i, e), b)
                == balance_of(s, b),
{
    let t = s.update(i, e);
    assert(forall|k: int| 0 <= k < t.len() ==> (#[trigger] t[k]).account == s[k].account);
    assert forall|b: u128| #[trigger] has_balance(t, b) == has_balance(s, b) by {
        if has_balance(t, b) {
            let k = choose|k: int| 0 <= k < t.len() && (#[trigger] t[k]).account == b;
            assert(s[k].account == b);
        }
        if has_balance(s, b) {
            let k = choose|k: int| 0 <= k < s.len() && (#[trigger] s[k]).account == b;
            assert(t[k].account == b);
        }
    }
    assert(t[i].account == e.account);
    let j = balance_idx(t, e.account);
    assert(0 <= j < t.len() && t[j].account == e.account);
    assert(j == i) by {
        if j < i {
            assert(t[j].account != t[i].account);
        } else if j > i {
            assert(t[i].account != t[j].account);
        }
    }
    assert forall|b: u128| b != e.account && has_balance(s, b) implies #[trigger] balance_of(
        t,
        b,
    ) == balance_of(s, b) by {
        let j1 = balance_idx(s, b);
        assert(0 <= j1 < s.len() && s[j1].account == b);
        assert(t[j1].account == b);
        let j2 = balance_idx(t, b);
        assert(0 <= j2 < t.len() && t[j2].account == b);
        assert(j2 == j1) by {
            if j2 < j1 {
                assert(t[j2].account != t[j1].account);
            } else if j2 > j1 {
                assert(t[j1].account != t[j2].account);
            }
        }
        assert(j1 != i);
    }
}

/// Appending an entry under a fresh account keeps keys unique and leaves
/// every existing account's entry unchanged.
pub proof fn lemma_balance_push(s: Seq<BalanceEntry>, e: BalanceEntry)
    requires
        uniq_balances(s),
        !has_balance(s, e.account),
    ensures
        uniq_balances(s.push(e)),
        has_balance(s.push(e), e.account),
        balance_of(s.push(e), e.account) == e,
        forall|b: u128|
            b != e.account ==> #[trigger] has_balance(s.push(e), b) == has_balance(s, b),
        forall|b: u128|
            b != e.account && has_balance(s, b) ==> #[trigger] balance_of(s.push(e), b)
                == balance_of(s, b),
{
    let t = s.push(e);
    assert(forall|k: int| 0 <= k < s.len() ==> (#[trigger] t[k]) == s[k]);
    assert(t[s.len() as int] == e);
    assert forall|i: int, j: int| 0 <= i < j < t.len() implies t[i].account != t[j].account by {
        if j < s.len() {
        } else {
            assert(t[j] == e);
            assert(s[i].account != e.account);
        }
    }
    let j = balance_idx(t, e.account);
    assert(0 <= j < t.len() && t[j].account == e.account);
    assert(j == s.len()) by {
        if j < s.len() {
            assert(s[j].account == e.account);
        }
    }
    assert forall|b: u128| b != e.account implies #[trigger] has_balance(t, b) == has_balance(
        s,
        b,
    ) by {
        if has_balance(t, b) {
            let k = choose|k: int| 0 <= k < t.len() && (#[trigger] t[k]).account == b;
            assert(k < s.len());
            assert(s[k].account == b);
        }
        if has_balance(s, b) {
            let k = choose|k: int| 0 <= k < s.len() && (#[trigger] s[k]).account == b;
            assert(t[k].account == b);
        }
    }
    assert forall|b: u128| b != e.account && has_balance(s, b) implies #[trigger] balance_of(
        t,
        b,
    ) == balance_of(s, b) by {
        let j1 = balance_idx(s, b);
        assert(0 <= j1 < s.len() && s[j1].account == b);
        assert(t[j1].account == b);
        let j2 = balance_idx(t, b);
        assert(0 <= j2 < t.len() && t[j2].account == b);
        assert(j2 < s.len()) by {
            if j2 == s.len() {
                assert(t[j2] == e);
            }
        }
        assert(j2 == j1) by {
            if j2 < j1 {
                assert(s[j2].account != s[j1].account);
            } else if j2 > j1 {
                assert(s[j1].account != s[j2].account);
            }
        }
    }
}

// -------------------------------------------------------------- delegations

/// No two delegation entries share a (delegator, resolver) pair.
pub open spec fn uniq_delegations(s: Seq<DelegationEntry>) -> bool {
    forall|i: int, j: int|
        0 <= i < j < s.len() ==> !(s[i].delegator == s[j].delegator && s[i].resolver
            == s[j].resolver)
}

/// Some entry carries this (delegator, resolver) pair.
pub open spec fn has_delegation(s: Seq<DelegationEntry>, d: u128, r: u128) -> bool {
    exists|i: int|
        0 <= i < s.len() && (#[trigger] s[i]).delegator == d && s[i].resolver == r
}

/// The index of the entry carrying this pair (unique under
/// `uniq_delegations`).
pub open spec fn delegation_idx(s: Seq<DelegationEntry>, d: u128, r: u128) -> int {
    choose|i: int| 0 <= i < s.len() && (#[trigger] s[i]).delegator == d && s[i].resolver == r
}

/// The entry carrying this pair.
pub open spec fn delegation_of(s: Seq<DelegationEntry>, d: u128, r: u128) -> DelegationEntry
    recommends
        has_delegation(s, d, r),
{
    s[delegation_idx(s, d, r)]
}

/// Replacing entry `i` with one under the same pair leaves every other
/// pair's entry, and membership everywhere, unchanged.
pub proof fn lemma_delegation_update(s: Seq<DelegationEntry>, i: int, e: DelegationEntry)
    requires
        uniq_delegations(s),
        0 <= i < s.len(),
        e.delegator == s[i].delegator,
        e.resolver == s[i].resolver,
    ensures
        uniq_delegations(s.update(i, e)),
        has_delegation(s.update(i, e), e.delegator, e.resolver),
        delegation_of(s.update(i, e), e.delegator, e.resolver) == e,
        forall|x: u128, y: u128|
            #[trigger] has_delegation(s.update(i, e), x, y) == has_delegation(s, x, y),
        forall|x: u128, y: u128|
            !(x == e.delegator && y == e.resolver) && has_delegation(s, x, y)
                ==> #[trigger] delegation_of(s.update(i, e), x, y) == delegation_of(s, x, y),
{
    let t = s.update(i, e);
    assert(forall|k: int|
        0 <= k < t.len() ==> (#[trigger] t[k]).delegator == s[k].delegator && t[k].resolver
            == s[k].resolver);
    assert forall|x: u128, y: u128| #[trigger] has_delegation(t, x, y) == has_delegation(
        s,
        x,
        y,
    ) by {
        if has_delegation(t, x, y) {
            let k = choose|k: int|
                0 <= k < t.len() && (#[trigger] t[k]).delegator == x && t[k].resolver == y;
            assert(s[k].delegator == x && s[k].resolver == y);
        }
        if has_delegation(s, x, y) {
            let k = choose|k: int|
                0 <= k < s.len() && (#[trigger] s[k]).delegator == x && s[k].resolver == y;
            assert(t[k].delegator == x && t[k].resolver == y);
        }
    }
    assert(t[i].delegator == e.delegator && t[i].resolver == e.resolver);
    let j = delegation_idx(t, e.delegator, e.resolver);
    assert(0 <= j < t.len() && t[j].delegator == e.delegator && t[j].resolver == e.resolver);
    assert(j == i) by {
        if j < i {
            assert(!(t[j].delegator == t[i].delegator && t[j].resolver == t[i].resolver));
        } else if j > i {
            assert(!(t[i].delegator == t[j].delegator && t[i].resolver == t[j].resolver));
        }
    }
    assert forall|x: u128, y: u128|
        !(x == e.delegator && y == e.resolver) && has_delegation(s, x, y)
            implies #[trigger] delegation_of(t, x, y) == delegation_of(s, x, y) by {
        let j1 = delegation_idx(s, x, y);
        assert(0 <= j1 < s.len() && s[j1].delegator == x && s[j1].resolver == y);
        assert(t[j1].delegator == x && t[j1].resolver == y);
        let j2 = delegation_idx(t, x, y);
        assert(0 <= j2 < t.len() && t[j2].delegator == x && t[j2].resolver == y);
        assert(j2 == j1) by {
            if j2 < j1 {
                assert(!(t[j2].delegator == t[j1].delegator && t[j2].resolver == t[j1].resolver));
            } else if j2 > j1 {
                assert(!(t[j1].delegator == t[j2].delegator && t[j1].resolver == t[j2].resolver));
            }
        }
        assert(j1 != i);
    }
}

/// Appending an entry under a fresh pair keeps pairs unique and leaves every
/// existing pair's entry unchanged.
pub proof fn lemma_delegation_push(s: Seq<DelegationEntry>, e: DelegationEntry)
    requires
        uniq_delegations(s),
        !has_delegation(s, e.delegator, e.resolver),
    ensures
        uniq_delegations(s.push(e)),
        has_delegation(s.push(e), e.delegator, e.resolver),
        delegation_of(s.push(e), e.delegator, e.resolver) == e,
        forall|x: u128, y: u128|
            !(x == e.delegator && y == e.resolver) ==> #[trigger] has_delegation(s.push(e), x, y)
                == has_delegation(s, x, y),
        forall|x: u128, y: u128|
            !(x == e.delegator && y == e.resolver) && has_delegation(s, x, y)
                ==> #[trigger] delegation_of(s.push(e), x, y) == delegation_of(s, x, y),
{
    let t = s.push(e);
    assert(forall|k: int| 0 <= k < s.len() ==> (#[trigger] t[k]) == s[k]);
    assert(t[s.len() as int] == e);
    assert forall|i: int, j: int| 0 <= i < j < t.len() implies !(t[i].delegator == t[j].delegator
        && t[i].resolver == t[j].resolver) by {
        if j < s.len() {
        } else {
            assert(t[j] == e);
            assert(!(s[i].delegator == e.delegator && s[i].resolver == e.resolver));
        }
    }
    let j = delegation_idx(t, e.delegator, e.resolver);
    assert(0 <= j < t.len() && t[j].delegator == e.delegator && t[j].resolver == e.resolver);
    assert(j == s.len()) by {
        if j < s.len() {
            assert(s[j].delegator == e.delegator && s[j].resolver == e.resolver);
        }
    }
    assert forall|x: u128, y: u128|
        !(x == e.delegator && y == e.resolver) implies #[trigger] has_delegation(t, x, y)
        == has_delegation(s, x, y) by {
        if has_delegation(t, x, y) {
            let k = choose|k: int|
                0 <= k < t.len() && (#[trigger] t[k]).delegator == x && t[k].resolver == y;
            assert(k < s.len());
            assert(s[k].delegator == x && s[k].resolver == y);
        }
        if has_delegation(s, x, y) {
            let k = choose|k: int|
                0 <= k < s.len() && (#[trigger] s[k]).delegator == x && s[k].resolver == y;
            assert(t[k].delegator == x && t[k].resolver == y);
        }
    }
    assert forall|x: u128, y: u128|
        !(x == e.delegator && y == e.resolver) && has_delegation(s, x, y)
            implies #[trigger] delegation_of(t, x, y) == delegation_of(s, x, y) by {
        let j1 = delegation_idx(s, x, y);
        assert(0 <= j1 < s.len() && s[j1].delegator == x && s[j1].resolver == y);
        assert(t[j1].delegator == x && t[j1].resolver == y);
        let j2 = delegation_idx(t, x, y);
        assert(0 <= j2 < t.len() && t[j2].delegator == x && t[j2].resolver == y);
        assert(j2 < s.len()) by {
            if j2 == s.len() {
                assert(t[j2] == e);
            }
        }
        assert(j2 == j1) by {
            if j2 < j1 {
                assert(!(s[j2].delegator == s[j1].delegator && s[j2].resolver == s[j1].resolver));
            } else if j2 > j1 {
                assert(!(s[j1].delegator == s[j2].delegator && s[j1].resolver == s[j2].resolver));
            }
        }
    }
}

} // verus!
