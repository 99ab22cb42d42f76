//! Sums over sequences of natural numbers, and the facts about them that the
//! histogram arithmetic relies on.
use vstd::prelude::*;

verus! {

/// The sum of all elements of `s`.
pub open spec fn sum(s: Seq<nat>) -> nat
    decreases s.len(),
{
    if s.len() == 0 {
        0
    } else {
        sum(s.drop_last()) + s.last()
    }
}

/// The elements of `v` as natural numbers.
pub open spec fn nats(v: Seq<u128>) -> Seq<nat> {
    v.map_values(|w: u128| w as nat)
}

/// The elements of `v` as natural numbers.
pub open spec fn nats64(v: Seq<u64>) -> Seq<nat> {
    v.map_values(|w: u64| w as nat)
}

/// The sum of the first `k` elements of `s`.
pub open spec fn prefix_sum(s: Seq<nat>, k: int) -> nat {
    sum(s.take(k))
}

pub proof fn lemma_prefix_sum_step(s: Seq<nat>, k: int)
    requires
        0 <= k < s.len(),
    ensures
        prefix_sum(s, k + 1) == prefix_sum(s, k) + s[k],
{
    assert(s.take(k + 1).drop_last() =~= s.take(k));
}

pub proof fn lemma_prefix_sum_ends(s: Seq<nat>)
    ensures
        prefix_sum(s, 0) == 0,
        prefix_sum(s, s.len() as int) == sum(s),
{
    assert(s.take(s.len() as int) =~= s);
}

/// Every element is at most the sum.
pub proof fn lemma_sum_bounds_element(s: Seq<nat>, i: int)
    requires
        0 <= i < s.len(),
    ensures
        s[i] <= sum(s),
    decreases s.len(),
{
    if i < s.len() - 1 {
        lemma_sum_bounds_element(s.drop_last(), i);
    }
}

/// A prefix sums to no more than the whole.
pub proof fn lemma_prefix_sum_le(s: Seq<nat>, k: int)
    requires
        0 <= k <= s.len(),
    ensures
        prefix_sum(s, k) <= sum(s),
    decreases s.len() - k,
{
    if k == s.len() {
        lemma_prefix_sum_ends(s);
    } else {
        lemma_prefix_sum_step(s, k);
        lemma_prefix_sum_le(s, k + 1);
    }
}

/// Replacing one element moves the sum by the difference.
pub proof fn lemma_sum_update(s: Seq<nat>, i: int, v: nat)
    requires
        0 <= i < s.len(),
    ensures
        sum(s.update(i, v)) == sum(s) - s[i] + v,
    decreases s.len(),
{
    if i == s.len() - 1 {
        assert(s.update(i, v).drop_last() =~= s.drop_last());
    } else {
        lemma_sum_update(s.drop_last(), i, v);
        assert(s.update(i, v).drop_last() =~= s.drop_last().update(i, v));
    }
}

/// Appending an element adds it to the sum.
pub proof fn lemma_sum_push(s: Seq<nat>, v: nat)
    ensures
        sum(s.push(v)) == sum(s) + v,
{
    assert(s.push(v).drop_last() =~= s);
}

/// A sequence of zeros sums to zero.
pub proof fn lemma_sum_zeros(s: Seq<nat>)
    requires
        forall|i: int| 0 <= i < s.len() ==> s[i] == 0,
    ensures
        sum(s) == 0,
    decreases s.len(),
{
    if s.len() > 0 {
        lemma_sum_zeros(s.drop_last());
    }
}

/// Sums respect the pointwise order.
pub proof fn lemma_sum_monotone(s: Seq<nat>, t: Seq<nat>)
    requires
        s.len() == t.len(),
        forall|i: int| 0 <= i < s.len() ==> s[i] <= t[i],
    ensures
        sum(s) <= sum(t),
    decreases s.len(),
{
    if s.len() > 0 {
        lemma_sum_monotone(s.drop_last(), t.drop_last());
    }
}

/// The sum of a pointwise sum is the sum of the sums.
pub proof fn lemma_sum_pointwise_add(s: Seq<nat>, t: Seq<nat>, u: Seq<nat>)
    requires
        s.len() == t.len(),
        s.len() == u.len(),
        forall|i: int| 0 <= i < s.len() ==> u[i] == s[i] + t[i],
    ensures
        sum(u) == sum(s) + sum(t),
    decreases s.len(),
{
    if s.len() > 0 {
        lemma_sum_pointwise_add(s.drop_last(), t.drop_last(), u.drop_last());
    }
}

/// If every element is at most `bound`, the sum is at most `len * bound`.
pub proof fn lemma_sum_bounded(s: Seq<nat>, bound: nat)
    requires
        forall|i: int| 0 <= i < s.len() ==> s[i] <= bound,
    ensures
        sum(s) <= s.len() * bound,
    decreases s.len(),
{
    if s.len() > 0 {
        lemma_sum_bounded(s.drop_last(), bound);
        assert((s.len() - 1) * bound + bound == s.len() * bound) by (nonlinear_arith);
    }
}

/// Scaling every element scales the sum.
pub proof fn lemma_sum_scaled(s: Seq<nat>, c: nat, t: Seq<nat>)
    requires
        s.len() == t.len(),
        forall|i: int| 0 <= i < s.len() ==> t[i] == s[i] * c,
    ensures
        sum(t) == sum(s) * c,
    decreases s.len(),
{
    if s.len() > 0 {
        lemma_sum_scaled(s.drop_last(), c, t.drop_last());
        assert((sum(s.drop_last()) + s.last()) * c == sum(s.drop_last()) * c + s.last() * c)
            by (nonlinear_arith);
    } else {
        assert(0 * c == 0) by (nonlinear_arith);
    }
}

} // verus!
