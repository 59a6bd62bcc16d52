use amazon_pricing::error::PricingError;
use amazon_pricing::trim::{drop_repeats, sort_ascending, trim};

#[test]
fn sort_is_by_value_and_keeps_repeats() {
    assert_eq!(sort_ascending(&vec![3, 1, 2, 1]), vec![1, 1, 2, 3]);
    assert_eq!(sort_ascending(&vec![]), Vec::<u64>::new());
    assert_eq!(sort_ascending(&vec![7]), vec![7]);
    assert_eq!(sort_ascending(&vec![u64::MAX, 0, 5, 5, 4]), vec![0, 4, 5, 5, u64::MAX]);
}

#[test]
fn sort_agrees_with_the_standard_sort() {
    let mut prices: Vec<u64> = Vec::new();
    let mut x: u64 = 12345;
    for _ in 0..500 {
        x = x.wrapping_mul(6364136223846793005).wrapping_add(1442695040888963407);
        prices.push((x >> 33) % 200);
    }
    let mut expected = prices.clone();
    expected.sort();
    assert_eq!(sort_ascending(&prices), expected);
    expected.dedup();
    assert_eq!(drop_repeats(&sort_ascending(&prices)), expected);
}

#[test]
fn only_neighbouring_repeats_are_dropped() {
    assert_eq!(drop_repeats(&vec![1, 1, 2, 1, 1, 1, 3, 3]), vec![1, 2, 1, 3]);
    assert_eq!(drop_repeats(&vec![]), Vec::<u64>::new());
    assert_eq!(drop_repeats(&vec![4]), vec![4]);
}

#[test]
fn fewer_than_two_distinct_prices_cannot_be_trimmed() {
    assert_eq!(trim(vec![]), Err(PricingError::TrimBounds));
    assert_eq!(trim(vec![500]), Err(PricingError::TrimBounds));
    assert_eq!(trim(vec![500, 500, 500]), Err(PricingError::TrimBounds));
}

#[test]
fn two_distinct_prices_leave_the_lower() {
    assert_eq!(trim(vec![700, 500]), Ok(vec![500]));
    assert_eq!(trim(vec![700, 500, 700, 500]), Ok(vec![500]));
}

#[test]
fn low_cut_is_an_eighth_of_the_distinct_count_rounded_down() {
    assert_eq!(trim((1..=7).collect()), Ok((1..=6).collect()));
    assert_eq!(trim((1..=8).collect()), Ok((2..=7).collect()));
    assert_eq!(trim((1..=15).collect()), Ok((2..=14).collect()));
    assert_eq!(trim((1..=16).collect()), Ok((3..=15).collect()));
    assert_eq!(trim((1..=100).collect()), Ok((13..=99).collect()));
}

#[test]
fn low_cut_counts_distinct_prices_not_all_prices() {
    let mut prices: Vec<u64> = Vec::new();
    for p in 1..=7u64 {
        prices.push(p);
        prices.push(p);
        prices.push(p);
    }
    assert_eq!(trim(prices), Ok((1..=6).collect()));
}

#[test]
fn synthetic_prices_are_trimmed() {
    let prices = vec![999, 1999, 500, 500, 10000, 200, 300, 400, 600, 700];
    assert_eq!(trim(prices), Ok(vec![300, 400, 500, 600, 700, 999, 1999]));
}

#[test]
fn trimmed_output_has_no_equal_neighbours() {
    let kept = trim(vec![3, 3, 9, 1, 9, 4, 4, 4, 8, 1, 7, 7, 2, 6, 5, 5]).unwrap();
    assert_eq!(kept, vec![2, 3, 4, 5, 6, 7, 8]);
    for pair in kept.windows(2) {
        assert!(pair[0] < pair[1]);
    }
}

#[test]
fn trimming_again_cuts_again() {
    let once = trim((1..=20).collect()).unwrap();
    assert_eq!(once, (3..=19).collect::<Vec<u64>>());
    let twice = trim(once.clone()).unwrap();
    assert_eq!(twice, (5..=18).collect::<Vec<u64>>());
    assert!(twice.len() < once.len());
    let short = trim(vec![1, 2, 3, 4]).unwrap();
    assert_eq!(short, vec![1, 2, 3]);
    assert_eq!(trim(short), Ok(vec![1, 2]));
    assert_eq!(trim(vec![1, 2]), Ok(vec![1]));
    assert_eq!(trim(vec![1]), Err(PricingError::TrimBounds));
}
