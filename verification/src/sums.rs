//! Summing a sequence of records through a measure function, with the
//! lemmas the ledger invariants need: how a sum moves under push, update
//! and removal, and the bounds that make executable arithmetic safe.

use vstd::prelude::*;

verus! {

/// The sum of `f` over all elements of `s`.
pub open spec fn sum_by<T>(s: Seq<T>, f: spec_fn(T) -> int) -> int
    decreases s.len(),
{
    if s.len() == 0 {
        0
    } else {
        f(s[0]) + sum_by(s.skip(1), f)
    }
}

/// Appending an element adds its measure to the sum.
pub proof fn lemma_sum_by_push<T>(s: Seq<T>, f: spec_fn(T) -> int, x: T)
    ensures
        sum_by(s.push(x), f) == sum_by(s, f) + f(x),
    decreases s.len(),
{
    assert(sum_by(s.push(x), f) == f(s.push(x)[0]) + sum_by(s.push(x).skip(1), f));
    if s.len() == 0 {
        assert(s.push(x)[0] == x);
        assert(s.push(x).skip(1) =~= Seq::<T>::empty());
        assert(sum_by(s.push(x).skip(1), f) == 0);
    } else {
        assert(s.push(x).skip(1) =~= s.skip(1).push(x));
        lemma_sum_by_push(s.skip(1), f, x);
        assert(s.push(x)[0] == s[0]);
        assert(sum_by(s, f) == f(s[0]) + sum_by(s.skip(1), f));
    }
}

/// Replacing the element at `i` swaps its measure in the sum.
pub proof fn lemma_sum_by_update<T>(s: Seq<T>, f: spec_fn(T) -> int, i: int, x: T)
    requires
        0 <= i < s.len(),
    ensures
        sum_by(s.update(i, x), f) == sum_by(s, f) - f(s[i]) + f(x),
    decreases s.len(),
{
    assert(sum_by(s.update(i, x), f) == f(s.update(i, x)[0]) + sum_by(s.update(i, x).skip(1), f));
    assert(sum_by(s, f) == f(s[0]) + sum_by(s.skip(1), f));
    if i == 0 {
        assert(s.update(0, x)[0] == x);
        assert(s.update(0, x).skip(1) =~= s.skip(1));
    } else {
        assert(s.update(i, x)[0] == s[0]);
        assert(s.update(i, x).skip(1) =~= s.skip(1).update(i - 1, x));
        lemma_sum_by_update(s.skip(1), f, i - 1, x);
        assert(s.skip(1)[i - 1] == s[i]);
    }
}

/// Removing the element at `i` takes its measure out of the sum.
pub proof fn lemma_sum_by_remove<T>(s: Seq<T>, f: spec_fn(T) -> int, i: int)
    requires
        0 <= i < s.len(),
    ensures
        sum_by(s.remove(i), f) == sum_by(s, f) - f(s[i]),
    decreases s.len(),
{
    assert(sum_by(s, f) == f(s[0]) + sum_by(s.skip(1), f));
    if i == 0 {
        assert(s.remove(0) =~= s.skip(1));
    } else {
        assert(sum_by(s.remove(i), f) == f(s.remove(i)[0]) + sum_by(s.remove(i).skip(1), f));
        assert(s.remove(i)[0] == s[0]);
        assert(s.remove(i).skip(1) =~= s.skip(1).remove(i - 1));
        lemma_sum_by_remove(s.skip(1), f, i - 1);
        assert(s.skip(1)[i - 1] == s[i]);
    }
}

/// A sum of nonnegative measures is nonnegative.
pub proof fn lemma_sum_by_nonneg<T>(s: Seq<T>, f: spec_fn(T) -> int)
    requires
        forall|j: int| 0 <= j < s.len() ==> f(#[trigger] s[j]) >= 0,
    ensures
        sum_by(s, f) >= 0,
    decreases s.len(),
{
    if s.len() > 0 {
        assert(forall|j: int| 0 <= j < s.skip(1).len() ==> f(#[trigger] s.skip(1)[j]) >= 0);
        lemma_sum_by_nonneg(s.skip(1), f);
    }
}

/// With nonnegative measures, the sum bounds each single element's measure.
pub proof fn lemma_sum_by_ge_elem<T>(s: Seq<T>, f: spec_fn(T) -> int, i: int)
    requires
        forall|j: int| 0 <= j < s.len() ==> f(#[trigger] s[j]) >= 0,
        0 <= i < s.len(),
    ensures
        sum_by(s, f) >= f(s[i]),
    decreases s.len(),
{
    assert(forall|j: int| 0 <= j < s.skip(1).len() ==> f(#[trigger] s.skip(1)[j]) >= 0);
    if i == 0 {
        lemma_sum_by_nonneg(s.skip(1), f);
    } else {
        lemma_sum_by_ge_elem(s.skip(1), f, i - 1);
        assert(s.skip(1)[i - 1] == s[i]);
        assert(f(s[0]) >= 0);
    }
}

/// If every element measures zero, the sum is zero.
pub proof fn lemma_sum_by_all_zero<T>(s: Seq<T>, f: spec_fn(T) -> int)
    requires
        forall|j: int| 0 <= j < s.len() ==> f(#[trigger] s[j]) == 0,
    ensures
        sum_by(s, f) == 0,
    decreases s.len(),
{
    if s.len() > 0 {
        assert(forall|j: int| 0 <= j < s.skip(1).len() ==> f(#[trigger] s.skip(1)[j]) == 0);
        lemma_sum_by_all_zero(s.skip(1), f);
        assert(f(s[0]) == 0);
    }
}

/// A sum splits at any point into the sum over the prefix and the sum over
/// the rest.
pub proof fn lemma_sum_by_split<T>(s: Seq<T>, f: spec_fn(T) -> int, i: int)
    requires
        0 <= i <= s.len(),
    ensures
        sum_by(s, f) == sum_by(s.take(i), f) + sum_by(s.skip(i), f),
    decreases i,
{
    if i == 0 {
        assert(s.take(0) =~= Seq::<T>::empty());
        assert(s.skip(0) =~= s);
        assert(sum_by(s.take(0), f) == 0);
    } else {
        assert(sum_by(s, f) == f(s[0]) + sum_by(s.skip(1), f));
        assert(sum_by(s.take(i), f) == f(s.take(i)[0]) + sum_by(s.take(i).skip(1), f));
        assert(s.take(i)[0] == s[0]);
        assert(s.take(i).skip(1) =~= s.skip(1).take(i - 1));
        assert(s.skip(i) =~= s.skip(1).skip(i - 1));
        lemma_sum_by_split(s.skip(1), f, i - 1);
    }
}

/// A pointwise-smaller measure gives a smaller sum.
pub proof fn lemma_sum_by_le<T>(s: Seq<T>, f: spec_fn(T) -> int, g: spec_fn(T) -> int)
    requires
        forall|j: int| 0 <= j < s.len() ==> f(#[trigger] s[j]) <= g(s[j]),
    ensures
        sum_by(s, f) <= sum_by(s, g),
    decreases s.len(),
{
    if s.len() > 0 {
        assert(forall|j: int| 0 <= j < s.skip(1).len() ==> f(#[trigger] s.skip(1)[j])
            <= g(s.skip(1)[j]));
        lemma_sum_by_le(s.skip(1), f, g);
        assert(f(s[0]) <= g(s[0]));
    }
}

} // verus!
