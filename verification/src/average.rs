//! The average of a list of prices, rounded to the nearest cent.

use vstd::prelude::*;
use vstd::arithmetic::div_mod::{
    lemma_fundamental_div_mod, lemma_fundamental_div_mod_converse, lemma_mod_pos_bound,
};
use crate::error::PricingError;

verus! {

/// The sum of the prices.
pub open spec fn total(prices: Seq<u64>) -> nat
    decreases prices.len(),
{
    if prices.len() == 0 {
        0
    } else {
        total(prices.drop_last()) + prices.last() as nat
    }
}

/// `sum / count` rounded to the nearest whole number, an exact half going
/// up, which for these non-negative values is away from zero: the quotient,
/// and one more where the remainder is at least half of `count`.
pub open spec fn rounded_ratio(sum: nat, count: nat) -> nat {
    sum / count + if 2 * (sum % count) >= count {
        1nat
    } else {
        0nat
    }
}

/// The mean of the prices, rounded to the nearest cent.
pub open spec fn mean(prices: Seq<u64>) -> nat {
    rounded_ratio(total(prices), prices.len())
}

/// Rounding the ratio is adding half of `count` before dividing:
/// `(2 * sum + count) / (2 * count)`, rounded down.
pub proof fn lemma_rounded_ratio_closed_form(sum: nat, count: nat)
    requires
        count > 0,
    ensures
        rounded_ratio(sum, count) == (2 * sum + count) / (2 * count),
{
    let q = (sum / count) as int;
    let r = (sum % count) as int;
    let n = count as int;
    lemma_fundamental_div_mod(sum as int, n);
    lemma_mod_pos_bound(sum as int, n);
    assert(n * q == q * n) by (nonlinear_arith);
    if 2 * r >= n {
        assert(2 * sum + n == (q + 1) * (2 * n) + (2 * r - n)) by (nonlinear_arith)
            requires
                sum == q * n + r,
        ;
        lemma_fundamental_div_mod_converse(2 * sum + n, 2 * n, q + 1, 2 * r - n);
    } else {
        assert(2 * sum + n == q * (2 * n) + (2 * r + n)) by (nonlinear_arith)
            requires
                sum == q * n + r,
        ;
        lemma_fundamental_div_mod_converse(2 * sum + n, 2 * n, q, 2 * r + n);
    }
}

/// The rounded ratio `m` of `sum` to `count` is the whole number nearest to
/// the exact ratio, and of two equally near the higher:
/// `m - 1/2 <= sum / count < m + 1/2`.
pub proof fn law_rounded_ratio_is_nearest(sum: nat, count: nat)
    requires
        count > 0,
    ensures
        2 * rounded_ratio(sum, count) * count - count <= 2 * sum,
        2 * sum < 2 * rounded_ratio(sum, count) * count + count,
{
    let m = rounded_ratio(sum, count) as int;
    let n = count as int;
    let x = 2 * sum + n;
    lemma_rounded_ratio_closed_form(sum, count);
    lemma_fundamental_div_mod(x, 2 * n);
    lemma_mod_pos_bound(x, 2 * n);
    assert((2 * n) * m == 2 * m * n) by (nonlinear_arith);
}

/// A sum of `count` prices is at most `count` times the highest possible
/// price, and at least `count` times any floor under all of them.
proof fn lemma_total_bounds(prices: Seq<u64>, low: nat, high: nat)
    requires
        forall|i: int| 0 <= i < prices.len() ==> low <= #[trigger] prices[i] <= high,
    ensures
        prices.len() * low <= total(prices) <= prices.len() * high,
    decreases prices.len(),
{
    if prices.len() > 0 {
        let front = prices.drop_last();
        lemma_total_bounds(front, low, high);
        assert(low <= prices[prices.len() - 1] <= high);
        assert(prices.len() * low == front.len() * low + low) by (nonlinear_arith)
            requires
                prices.len() == front.len() + 1,
        ;
        assert(prices.len() * high == front.len() * high + high) by (nonlinear_arith)
            requires
                prices.len() == front.len() + 1,
        ;
    } else {
        assert(prices.len() * low == 0) by (nonlinear_arith)
            requires
                prices.len() == 0,
        ;
        assert(prices.len() * high == 0) by (nonlinear_arith)
            requires
                prices.len() == 0,
        ;
    }
}

/// The mean of prices that all lie between `low` and `high` lies between
/// `low` and `high` too.
pub proof fn law_mean_within_range(prices: Seq<u64>, low: nat, high: nat)
    requires
        prices.len() > 0,
        forall|i: int| 0 <= i < prices.len() ==> low <= #[trigger] prices[i] <= high,
    ensures
        low <= mean(prices) <= high,
{
    let n = prices.len() as int;
    let sum = total(prices) as int;
    let m = mean(prices) as int;
    lemma_total_bounds(prices, low, high);
    law_rounded_ratio_is_nearest(total(prices), prices.len());
    assert(m <= high) by (nonlinear_arith)
        requires
            n > 0,
            2 * m * n - n <= 2 * sum,
            sum <= n * high,
    ;
    assert(low <= m) by (nonlinear_arith)
        requires
            n > 0,
            2 * sum < 2 * m * n + n,
            n * low <= sum,
    ;
}

/// Divides and rounds to the nearest whole number, an exact half going up.
/// Fails with `Aggregation` if and only if `count` is zero.
pub fn round_ratio(sum: u128, count: u128) -> (outcome: Result<u128, PricingError>)
    ensures
        match outcome {
            Ok(ratio) => count > 0 && ratio == rounded_ratio(sum as nat, count as nat),
            Err(e) => count == 0 && e == PricingError::Aggregation,
        },
{
    if count == 0 {
        return Err(PricingError::Aggregation);
    }
    let floor = sum / count;
    let rest = sum % count;
    proof {
        lemma_fundamental_div_mod(sum as int, count as int);
        lemma_mod_pos_bound(sum as int, count as int);
    }
    if rest >= count - rest {
        assert(floor < u128::MAX) by (nonlinear_arith)
            requires
                sum == count * floor + rest,
                rest >= count - rest,
                rest < count,
                sum <= u128::MAX,
                floor >= 0,
        ;
        Ok(floor + 1)
    } else {
        Ok(floor)
    }
}

/// Adds the prices up.
pub fn sum_prices(prices: &Vec<u64>) -> (sum: u128)
    ensures
        sum == total(prices@),
{
    let mut sum: u128 = 0;
    let mut i: usize = 0;
    while i < prices.len()
        invariant
            i <= prices.len(),
            sum == total(prices@.take(i as int)),
            sum <= i * u64::MAX,
        decreases prices.len() - i,
    {
        proof {
            assert(prices@.take(i + 1).drop_last() =~= prices@.take(i as int));
            assert((i + 1) * u64::MAX == i * u64::MAX + u64::MAX) by (nonlinear_arith);
            assert(i * u64::MAX <= usize::MAX * u64::MAX) by (nonlinear_arith)
                requires
                    i <= usize::MAX,
            ;
        }
        sum = sum + prices[i] as u128;
        i = i + 1;
    }
    proof {
        prices@.lemma_take_len();
    }
    sum
}

/// The arithmetic mean of the prices, rounded to the nearest cent, an exact
/// half cent going up. Fails with `Aggregation` if and only if there are no
/// prices.
pub fn average(prices: &Vec<u64>) -> (outcome: Result<u64, PricingError>)
    ensures
        match outcome {
            Ok(cents) => prices.len() > 0 && cents == mean(prices@),
            Err(e) => prices.len() == 0 && e == PricingError::Aggregation,
        },
{
    if prices.len() == 0 {
        return Err(PricingError::Aggregation);
    }
    let sum = sum_prices(prices);
    match round_ratio(sum, prices.len() as u128) {
        Ok(ratio) => {
            proof {
                law_mean_within_range(prices@, 0, u64::MAX as nat);
            }
            Ok(ratio as u64)
        },
        Err(e) => Err(e),
    }
}

} // verus!
