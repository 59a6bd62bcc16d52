use amazon_pricing::average::{average, round_ratio, sum_prices};
use amazon_pricing::error::PricingError;

#[test]
fn average_of_one_two_three_dollars() {
    assert_eq!(average(&vec![100, 200, 300]), Ok(200));
}

#[test]
fn average_of_thousandths_rounds_to_cents() {
    // 1.005 and 1.015 in thousandths; ten thousandths make a cent.
    assert_eq!(round_ratio(1005 + 1015, 2 * 10), Ok(101));
}

#[test]
fn exact_half_cent_goes_up() {
    assert_eq!(average(&vec![100, 101]), Ok(101));
    assert_eq!(average(&vec![1, 2]), Ok(2));
    assert_eq!(average(&vec![0, 1]), Ok(1));
    assert_eq!(round_ratio(201, 2), Ok(101));
    assert_eq!(round_ratio(5, 10), Ok(1));
    assert_eq!(round_ratio(15, 10), Ok(2));
}

#[test]
fn less_than_half_goes_down_and_more_goes_up() {
    assert_eq!(average(&vec![1, 1, 2]), Ok(1));
    assert_eq!(average(&vec![1, 2, 2]), Ok(2));
    assert_eq!(round_ratio(149, 100), Ok(1));
    assert_eq!(round_ratio(151, 100), Ok(2));
    assert_eq!(round_ratio(0, 7), Ok(0));
}

#[test]
fn average_of_nothing_is_an_error() {
    assert_eq!(average(&vec![]), Err(PricingError::Aggregation));
    assert_eq!(round_ratio(10, 0), Err(PricingError::Aggregation));
    assert_eq!(round_ratio(0, 0), Err(PricingError::Aggregation));
}

#[test]
fn average_of_one_price_is_that_price() {
    assert_eq!(average(&vec![785]), Ok(785));
    assert_eq!(average(&vec![u64::MAX]), Ok(u64::MAX));
}

#[test]
fn large_prices_do_not_overflow() {
    assert_eq!(average(&vec![u64::MAX, u64::MAX, u64::MAX]), Ok(u64::MAX));
    assert_eq!(average(&vec![u64::MAX, u64::MAX - 1]), Ok(u64::MAX));
    assert_eq!(sum_prices(&vec![u64::MAX, u64::MAX]), 2 * (u64::MAX as u128));
    assert_eq!(round_ratio(u128::MAX, 1), Ok(u128::MAX));
    assert_eq!(round_ratio(u128::MAX, 2), Ok(1u128 << 127));
    assert_eq!(round_ratio(u128::MAX, u128::MAX), Ok(1));
    assert_eq!(round_ratio(u128::MAX - 1, u128::MAX), Ok(1));
    assert_eq!(round_ratio(u128::MAX / 2, u128::MAX), Ok(0));
    assert_eq!(round_ratio(u128::MAX / 2 + 1, u128::MAX), Ok(1));
}

#[test]
fn sum_adds_every_price() {
    assert_eq!(sum_prices(&vec![]), 0);
    assert_eq!(sum_prices(&vec![300, 400, 500, 600, 700, 999, 1999]), 5498);
}

#[test]
fn average_lies_between_lowest_and_highest() {
    let prices = vec![300, 400, 500, 600, 700, 999, 1999];
    let mean = average(&prices).unwrap();
    assert_eq!(mean, 785);
    assert!(300 <= mean && mean <= 1999);
}
