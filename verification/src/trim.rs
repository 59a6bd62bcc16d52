//! Outlier trimming: sort, drop repeats, then discard the lowest eighth and
//! the single highest price.

use vstd::prelude::*;
use vstd::multiset::group_multiset_axioms;
use vstd::relations::{sorted_by, total_ordering};
use vstd::seq_lib::{
    group_to_multiset_ensures, lemma_multiset_commutative, lemma_sorted_unique, to_multiset_build,
};
use crate::error::{outcome_view, PricingError};

verus! {

/// The order in which prices are sorted: by value, lowest first.
pub open spec fn price_order() -> spec_fn(u64, u64) -> bool {
    |a: u64, b: u64| a <= b
}

/// Whether no price in `prices` is followed, anywhere later, by a lower one.
pub open spec fn is_ascending(prices: Seq<u64>) -> bool {
    forall|i: int, j: int| 0 <= i < j < prices.len() ==> prices[i] <= prices[j]
}

/// Whether every price in `prices` is lower than all that follow it.
pub open spec fn is_strictly_ascending(prices: Seq<u64>) -> bool {
    forall|i: int, j: int| 0 <= i < j < prices.len() ==> prices[i] < prices[j]
}

/// `prices` sorted by value, lowest first.
pub open spec fn ascending(prices: Seq<u64>) -> Seq<u64> {
    prices.sort_by(price_order())
}

/// `prices` with each run of equal neighbours reduced to one price.
pub open spec fn without_repeats(prices: Seq<u64>) -> Seq<u64>
    decreases prices.len(),
{
    if prices.len() <= 1 {
        prices
    } else if prices[prices.len() - 2] == prices.last() {
        without_repeats(prices.drop_last())
    } else {
        without_repeats(prices.drop_last()).push(prices.last())
    }
}

/// The distinct values of `prices`, lowest first.
pub open spec fn distinct_ascending(prices: Seq<u64>) -> Seq<u64> {
    without_repeats(ascending(prices))
}

/// How many of `count` distinct prices are cut from the low end.
pub open spec fn low_cut(count: nat) -> nat {
    count / 8
}

/// The distinct prices in ascending order, without the lowest eighth
/// (rounded down) and without the highest one.
pub open spec fn trimmed(prices: Seq<u64>) -> Seq<u64> {
    let distinct = distinct_ascending(prices);
    distinct.subrange(low_cut(distinct.len()) as int, distinct.len() - 1)
}

/// What trimming gives: the trimmed prices where at least two distinct
/// prices are at hand, else an error.
pub open spec fn trim_outcome(prices: Seq<u64>) -> Result<Seq<u64>, PricingError> {
    if distinct_ascending(prices).len() >= 2 {
        Ok(trimmed(prices))
    } else {
        Err(PricingError::TrimBounds)
    }
}

/// Ordering by value is a total order.
proof fn lemma_price_order_total()
    ensures
        total_ordering(price_order()),
{
}

/// A list is ascending exactly when it is sorted by the price order.
proof fn lemma_ascending_is_sorted_by(prices: Seq<u64>)
    ensures
        is_ascending(prices) <==> sorted_by(prices, price_order()),
{
    if is_ascending(prices) {
        assert forall|i: int, j: int| 0 <= i < j < prices.len() implies #[trigger] price_order()(
            prices[i],
            prices[j],
        ) by {}
    }
    if sorted_by(prices, price_order()) {
        assert forall|i: int, j: int| 0 <= i < j < prices.len() implies prices[i] <= prices[j] by {
            assert(price_order()(prices[i], prices[j]));
        }
    }
}

/// A sequence in ascending order that holds the same prices as `prices`,
/// each as often, is `ascending(prices)`.
pub proof fn lemma_ascending_unique(prices: Seq<u64>, sorted: Seq<u64>)
    requires
        is_ascending(sorted),
        sorted.to_multiset() == prices.to_multiset(),
    ensures
        sorted == ascending(prices),
{
    lemma_price_order_total();
    prices.lemma_sort_by_ensures(price_order());
    lemma_ascending_is_sorted_by(sorted);
    lemma_sorted_unique(sorted, ascending(prices), price_order());
}

/// Merges two ascending lists into one.
fn merge(left: &Vec<u64>, right: &Vec<u64>) -> (merged: Vec<u64>)
    requires
        is_ascending(left@),
        is_ascending(right@),
    ensures
        is_ascending(merged@),
        merged@.to_multiset() == left@.to_multiset().add(right@.to_multiset()),
{
    broadcast use {group_to_multiset_ensures, group_multiset_axioms};

    let mut merged: Vec<u64> = Vec::new();
    let mut i: usize = 0;
    let mut j: usize = 0;
    while i < left.len() || j < right.len()
        invariant
            i <= left.len(),
            j <= right.len(),
            is_ascending(left@),
            is_ascending(right@),
            is_ascending(merged@),
            merged@.to_multiset() == left@.take(i as int).to_multiset().add(
                right@.take(j as int).to_multiset(),
            ),
            forall|k: int| 0 <= k < merged.len() && i < left.len() ==> merged[k] <= left[i as int],
            forall|k: int| 0 <= k < merged.len() && j < right.len() ==> merged[k] <= right[j as int],
        decreases (left.len() - i) + (right.len() - j),
    {
        if j >= right.len() || (i < left.len() && left[i] <= right[j]) {
            proof {
                left@.lemma_take_succ_push(i as int);
            }
            let ghost before = merged@;
            merged.push(left[i]);
            i = i + 1;
            proof {
                let x = left[i - 1];
                let taken = left@.take(i - 1);
                assert(left@.take(i as int) == taken.push(x));
                assert(merged@ == before.push(x));
                to_multiset_build(before, x);
                to_multiset_build(taken, x);
                assert(taken.to_multiset().add(right@.take(j as int).to_multiset()).insert(x)
                    =~= taken.to_multiset().insert(x).add(right@.take(j as int).to_multiset()));
            }
        } else {
            proof {
                right@.lemma_take_succ_push(j as int);
            }
            let ghost before = merged@;
            merged.push(right[j]);
            j = j + 1;
            proof {
                let x = right[j - 1];
                let taken = right@.take(j - 1);
                assert(right@.take(j as int) == taken.push(x));
                assert(merged@ == before.push(x));
                to_multiset_build(before, x);
                to_multiset_build(taken, x);
                assert(left@.take(i as int).to_multiset().add(taken.to_multiset()).insert(x)
                    =~= left@.take(i as int).to_multiset().add(taken.to_multiset().insert(x)));
            }
        }
    }
    proof {
        left@.lemma_take_len();
        right@.lemma_take_len();
    }
    merged
}

/// Sorts the part of `prices` from index `from` up to `to`.
fn sort_range(prices: &Vec<u64>, from: usize, to: usize) -> (sorted: Vec<u64>)
    requires
        from <= to <= prices.len(),
    ensures
        is_ascending(sorted@),
        sorted@.to_multiset() == prices@.subrange(from as int, to as int).to_multiset(),
    decreases to - from,
{
    broadcast use group_to_multiset_ensures;

    if to - from <= 1 {
        let mut sorted: Vec<u64> = Vec::new();
        if to > from {
            sorted.push(prices[from]);
        }
        assert(sorted@ =~= prices@.subrange(from as int, to as int));
        sorted
    } else {
        let mid = from + (to - from) / 2;
        let left = sort_range(prices, from, mid);
        let right = sort_range(prices, mid, to);
        proof {
            let lower = prices@.subrange(from as int, mid as int);
            let upper = prices@.subrange(mid as int, to as int);
            assert(prices@.subrange(from as int, to as int) =~= lower + upper);
            lemma_multiset_commutative(lower, upper);
        }
        merge(&left, &right)
    }
}

/// Sorts prices by value, lowest first.
pub fn sort_ascending(prices: &Vec<u64>) -> (sorted: Vec<u64>)
    ensures
        sorted@ == ascending(prices@),
        is_ascending(sorted@),
        sorted.len() == prices.len(),
{
    broadcast use group_to_multiset_ensures;

    let sorted = sort_range(prices, 0, prices.len());
    proof {
        assert(prices@.subrange(0, prices.len() as int) =~= prices@);
        lemma_ascending_unique(prices@, sorted@);
        assert(sorted@.to_multiset().len() == sorted@.len());
        assert(prices@.to_multiset().len() == prices@.len());
    }
    sorted
}

/// Dropping repeats keeps the last price, and keeps no more than it was given.
proof fn lemma_without_repeats_shape(prices: Seq<u64>)
    ensures
        without_repeats(prices).len() <= prices.len(),
        prices.len() > 0 ==> without_repeats(prices).len() > 0 && without_repeats(prices).last()
            == prices.last(),
    decreases prices.len(),
{
    if prices.len() > 1 {
        lemma_without_repeats_shape(prices.drop_last());
    }
}

/// Dropping repeats neither loses a value nor invents one.
proof fn lemma_without_repeats_values(prices: Seq<u64>)
    ensures
        forall|x: u64| without_repeats(prices).contains(x) <==> prices.contains(x),
    decreases prices.len(),
{
    if prices.len() > 1 {
        let front = prices.drop_last();
        let last = prices.last();
        lemma_without_repeats_values(front);
        let kept = without_repeats(prices);
        let inner = without_repeats(front);
        assert(prices =~= front.push(last));
        assert forall|x: u64| kept.contains(x) <==> prices.contains(x) by {
            if prices.contains(x) {
                let k = choose|k: int| 0 <= k < prices.len() && prices[k] == x;
                if k < front.len() || prices[prices.len() - 2] == last {
                    let m = if k < front.len() {
                        k
                    } else {
                        front.len() - 1
                    };
                    assert(front[m] == x);
                    assert(front.contains(x));
                    assert(inner.contains(x));
                    let n = choose|n: int| 0 <= n < inner.len() && inner[n] == x;
                    assert(kept[n] == x);
                } else {
                    assert(kept[kept.len() - 1] == x);
                }
                assert(kept.contains(x));
            }
            if kept.contains(x) {
                let k = choose|k: int| 0 <= k < kept.len() && kept[k] == x;
                if prices[prices.len() - 2] == last || k < kept.len() - 1 {
                    assert(inner[k] == x);
                    assert(inner.contains(x));
                    assert(front.contains(x));
                    let m = choose|m: int| 0 <= m < front.len() && front[m] == x;
                    assert(prices[m] == x);
                } else {
                    assert(prices[prices.len() - 1] == x);
                }
                assert(prices.contains(x));
            }
        }
    }
}

/// Dropping repeats from an ascending list leaves a strictly ascending one.
proof fn lemma_without_repeats_strict(prices: Seq<u64>)
    requires
        is_ascending(prices),
    ensures
        is_strictly_ascending(without_repeats(prices)),
    decreases prices.len(),
{
    if prices.len() > 1 {
        let front = prices.drop_last();
        lemma_without_repeats_strict(front);
        lemma_without_repeats_shape(front);
        lemma_without_repeats_values(front);
        if prices[prices.len() - 2] != prices.last() {
            let kept = without_repeats(prices);
            assert forall|i: int, j: int| 0 <= i < j < kept.len() implies kept[i] < kept[j] by {
                if j == kept.len() - 1 {
                    let x = without_repeats(front)[i];
                    assert(without_repeats(front).contains(x));
                    assert(front.contains(x));
                    let m = choose|m: int| 0 <= m < front.len() && front[m] == x;
                    assert(prices[m] <= prices[prices.len() - 2]);
                    assert(kept[i] == without_repeats(front)[i]);
                } else {
                    assert(kept[i] == without_repeats(front)[i]);
                    assert(kept[j] == without_repeats(front)[j]);
                }
            }
        }
    }
}

/// Two strictly ascending lists that hold the same values are the same list.
proof fn lemma_strictly_ascending_unique(a: Seq<u64>, b: Seq<u64>)
    requires
        is_strictly_ascending(a),
        is_strictly_ascending(b),
        forall|x: u64| a.contains(x) <==> b.contains(x),
    ensures
        a == b,
    decreases a.len(),
{
    if a.len() == 0 {
        if b.len() > 0 {
            assert(b.contains(b[0]));
        }
        assert(a =~= b);
    } else if b.len() == 0 {
        assert(a.contains(a[0]));
    } else {
        let top_a = a.last();
        let top_b = b.last();
        assert(a.contains(top_a));
        assert(b.contains(top_b));
        let ia = choose|i: int| 0 <= i < a.len() && a[i] == top_b;
        let ib = choose|i: int| 0 <= i < b.len() && b[i] == top_a;
        assert(top_a == top_b);
        let fa = a.drop_last();
        let fb = b.drop_last();
        assert forall|x: u64| fa.contains(x) <==> fb.contains(x) by {
            if fa.contains(x) {
                let i = choose|i: int| 0 <= i < fa.len() && fa[i] == x;
                assert(a[i] == x);
                assert(a.contains(x));
                let k = choose|k: int| 0 <= k < b.len() && b[k] == x;
                assert(k < b.len() - 1);
                assert(fb[k] == x);
            }
            if fb.contains(x) {
                let i = choose|i: int| 0 <= i < fb.len() && fb[i] == x;
                assert(b[i] == x);
                assert(b.contains(x));
                let k = choose|k: int| 0 <= k < a.len() && a[k] == x;
                assert(k < a.len() - 1);
                assert(fa[k] == x);
            }
        }
        lemma_strictly_ascending_unique(fa, fb);
        assert(a =~= fa.push(top_a));
        assert(b =~= fb.push(top_b));
    }
}

/// Drops each price that equals the one before it.
pub fn drop_repeats(prices: &Vec<u64>) -> (kept: Vec<u64>)
    ensures
        kept@ == without_repeats(prices@),
{
    let mut kept: Vec<u64> = Vec::new();
    let mut i: usize = 0;
    while i < prices.len()
        invariant
            i <= prices.len(),
            kept@ == without_repeats(prices@.take(i as int)),
        decreases prices.len() - i,
    {
        proof {
            assert(prices@.take(i + 1).drop_last() =~= prices@.take(i as int));
        }
        if i == 0 || prices[i - 1] != prices[i] {
            kept.push(prices[i]);
        }
        i = i + 1;
    }
    proof {
        prices@.lemma_take_len();
    }
    kept
}

/// Sorts the prices, drops repeats, then cuts the lowest eighth of what is
/// left (rounded down) and the single highest price. Fails with `TrimBounds`
/// if and only if fewer than two distinct prices were given.
pub fn trim(prices: Vec<u64>) -> (outcome: Result<Vec<u64>, PricingError>)
    ensures
        outcome_view(outcome) == trim_outcome(prices@),
        outcome matches Ok(kept) ==> {
            &&& is_strictly_ascending(kept@)
            &&& forall|i: int| 0 <= i && i + 1 < kept.len() ==> kept[i] != #[trigger] kept[i + 1]
            &&& kept.len() >= 1
        },
{
    let sorted = sort_ascending(&prices);
    let distinct = drop_repeats(&sorted);
    let count = distinct.len();
    if count < 2 {
        return Err(PricingError::TrimBounds);
    }
    proof {
        lemma_without_repeats_strict(sorted@);
    }
    let mut kept: Vec<u64> = Vec::new();
    let mut i: usize = count / 8;
    while i < count - 1
        invariant
            count == distinct.len(),
            count >= 2,
            count / 8 <= i <= count - 1,
            kept@ == distinct@.subrange((count / 8) as int, i as int),
        decreases count - i,
    {
        kept.push(distinct[i]);
        i = i + 1;
        assert(kept@ =~= distinct@.subrange((count / 8) as int, i as int));
    }
    Ok(kept)
}

/// The distinct prices in ascending order are strictly ascending and hold
/// exactly the values of the input.
pub proof fn law_distinct_ascending(prices: Seq<u64>)
    ensures
        is_strictly_ascending(distinct_ascending(prices)),
        forall|x: u64| distinct_ascending(prices).contains(x) <==> prices.contains(x),
        distinct_ascending(prices).len() <= prices.len(),
{
    broadcast use group_to_multiset_ensures;

    lemma_price_order_total();
    prices.lemma_sort_by_ensures(price_order());
    let sorted = ascending(prices);
    lemma_ascending_is_sorted_by(sorted);
    lemma_without_repeats_strict(sorted);
    lemma_without_repeats_values(sorted);
    lemma_without_repeats_shape(sorted);
    assert(sorted.to_multiset().len() == sorted.len());
    assert(prices.to_multiset().len() == prices.len());
    assert forall|x: u64| sorted.contains(x) <==> prices.contains(x) by {
        assert(sorted.contains(x) <==> sorted.to_multiset().count(x) > 0);
        assert(prices.contains(x) <==> prices.to_multiset().count(x) > 0);
    }
}

/// Only one list is strictly ascending and holds exactly the values of
/// `prices`: whatever has both properties is `distinct_ascending(prices)`.
pub proof fn law_distinct_ascending_is_unique(prices: Seq<u64>, list: Seq<u64>)
    requires
        is_strictly_ascending(list),
        forall|x: u64| list.contains(x) <==> prices.contains(x),
    ensures
        list == distinct_ascending(prices),
{
    law_distinct_ascending(prices);
    lemma_strictly_ascending_unique(list, distinct_ascending(prices));
}

/// Whatever the input, no two neighbours in the trimmed output are equal:
/// the output is strictly ascending, and each of its prices occurs in the
/// input.
pub proof fn law_trimmed_has_no_equal_neighbours(prices: Seq<u64>)
    ensures
        trim_outcome(prices) matches Ok(kept) ==> {
            &&& forall|i: int| 0 <= i && i + 1 < kept.len() ==> kept[i] != #[trigger] kept[i + 1]
            &&& is_strictly_ascending(kept)
            &&& forall|i: int| 0 <= i < kept.len() ==> prices.contains(#[trigger] kept[i])
        },
{
    law_distinct_ascending(prices);
    let distinct = distinct_ascending(prices);
    if distinct.len() >= 2 {
        let kept = trimmed(prices);
        let low = low_cut(distinct.len()) as int;
        assert forall|i: int| 0 <= i < kept.len() implies prices.contains(#[trigger] kept[i]) by {
            assert(kept[i] == distinct[low + i]);
            assert(distinct.contains(distinct[low + i]));
        }
    }
}

/// Trimming a list that is already sorted and free of repeats, with at least
/// two prices, cuts it again: the lowest eighth and the highest price go, so
/// the result is shorter than the list. Trimming is therefore not idempotent,
/// and a trimmed list stays as it is only as long as it is not trimmed again.
pub proof fn law_trimming_again_cuts_again(list: Seq<u64>)
    requires
        is_strictly_ascending(list),
        list.len() >= 2,
    ensures
        trim_outcome(list) == Ok::<Seq<u64>, PricingError>(
            list.subrange(low_cut(list.len()) as int, list.len() - 1),
        ),
        trim_outcome(list) matches Ok(kept) && kept.len() == list.len() - 1 - low_cut(list.len())
            && kept.len() < list.len(),
        trim_outcome(list) != Ok::<Seq<u64>, PricingError>(list),
{
    law_distinct_ascending_is_unique(list, list);
}

/// Trimming the outcome of a trim, where that outcome still has two prices,
/// succeeds and removes at least one more price.
pub proof fn law_second_trim_is_shorter(prices: Seq<u64>)
    requires
        trim_outcome(prices) is Ok,
        trim_outcome(prices)->Ok_0.len() >= 2,
    ensures
        trim_outcome(trim_outcome(prices)->Ok_0) matches Ok(again) && again.len() < trim_outcome(
            prices,
        )->Ok_0.len(),
{
    law_trimmed_has_no_equal_neighbours(prices);
    law_trimming_again_cuts_again(trim_outcome(prices)->Ok_0);
}

/// A trim that succeeds keeps at least one price, and fewer prices than
/// there were distinct ones.
pub proof fn law_trimmed_is_not_empty(prices: Seq<u64>)
    ensures
        trim_outcome(prices) matches Ok(kept) ==> 1 <= kept.len() < distinct_ascending(
            prices,
        ).len(),
{
}

} // verus!
