//! Costs: `u64` values with zero as the identity, added with saturation at
//! `u64::MAX`, so that no sum overflows silently.

use vstd::prelude::*;

verus! {

/// The sum of two costs, held at `u64::MAX` where it would pass it.
pub open spec fn sat_add(a: int, b: int) -> int {
    if a + b > u64::MAX {
        u64::MAX as int
    } else {
        a + b
    }
}

/// The sum of all the costs in `costs`, without a bound.
pub open spec fn total(costs: Seq<u64>) -> int
    decreases costs.len(),
{
    if costs.len() == 0 {
        0
    } else {
        total(costs.drop_last()) + costs.last()
    }
}

/// The cost of a sequence of steps as the searches compute it: the sum of the
/// step costs, held at `u64::MAX`.
pub open spec fn sat_total(costs: Seq<u64>) -> int {
    sat_add(total(costs), 0)
}

/// A sum of costs is not negative.
pub proof fn lemma_total_nonnegative(costs: Seq<u64>)
    ensures
        total(costs) >= 0,
    decreases costs.len(),
{
    if costs.len() > 0 {
        lemma_total_nonnegative(costs.drop_last());
    }
}

/// The sum of the first `k + 1` costs is the sum of the first `k` and the
/// next.
pub proof fn lemma_total_take(costs: Seq<u64>, k: int)
    requires
        0 <= k < costs.len(),
    ensures
        total(costs.take(k + 1)) == total(costs.take(k)) + costs[k],
{
    assert(costs.take(k + 1).drop_last() =~= costs.take(k));
}

/// The sum of all the costs is the sum of the first `k` and the sum of the
/// rest.
pub proof fn lemma_total_split(costs: Seq<u64>, k: int)
    requires
        0 <= k <= costs.len(),
    ensures
        total(costs) == total(costs.take(k)) + total(costs.skip(k)),
    decreases costs.len() - k,
{
    if k == costs.len() {
        assert(costs.take(k) =~= costs);
        assert(costs.skip(k) =~= Seq::<u64>::empty());
    } else {
        lemma_total_split(costs, k + 1);
        lemma_total_take(costs, k);
        lemma_total_first(costs.skip(k));
        assert(costs.skip(k).skip(1) =~= costs.skip(k + 1));
    }
}

/// The sum of the costs is the first and the sum of the rest.
pub proof fn lemma_total_first(costs: Seq<u64>)
    requires
        costs.len() >= 1,
    ensures
        total(costs) == costs[0] + total(costs.skip(1)),
    decreases costs.len(),
{
    if costs.len() == 1 {
        assert(costs.drop_last() =~= Seq::<u64>::empty());
        assert(costs.skip(1) =~= Seq::<u64>::empty());
    } else {
        lemma_total_first(costs.drop_last());
        assert(costs.drop_last().skip(1) =~= costs.skip(1).drop_last());
        assert(costs.drop_last()[0] == costs[0]);
    }
}

/// `num_traits::Zero::zero` at `u64`: the additive identity, which is 0.
#[verifier::external_body]
pub(crate) fn zero() -> (z: u64)
    ensures
        z == 0,
{
    num_traits::Zero::zero()
}

} // verus!
