use amazon_pricing::error::PricingError;
use amazon_pricing::extract::{pair_fragments, PriceExtractor};
use amazon_pricing::price::{parse_fraction, parse_price, parse_whole};

fn some(text: &str) -> Option<String> {
    Some(text.to_string())
}

#[test]
fn comma_is_stripped_from_whole_part() {
    assert_eq!(parse_price("1,234", "56"), Some(123456));
}

#[test]
fn whole_part_needs_a_digit() {
    assert_eq!(parse_whole(""), None);
    assert_eq!(parse_whole(","), None);
    assert_eq!(parse_whole("12a"), None);
    assert_eq!(parse_whole("007"), Some(7));
    assert_eq!(parse_whole("1,000,000"), Some(1000000));
}

#[test]
fn fraction_is_exactly_two_digits() {
    assert_eq!(parse_fraction("05"), Some(5));
    assert_eq!(parse_fraction("99"), Some(99));
    assert_eq!(parse_fraction("5"), None);
    assert_eq!(parse_fraction("123"), None);
    assert_eq!(parse_fraction("1,"), None);
    assert_eq!(parse_fraction(""), None);
}

#[test]
fn price_beyond_64_bits_is_refused() {
    assert_eq!(parse_price("184467440737095516", "15"), Some(u64::MAX));
    assert_eq!(parse_price("184467440737095516", "16"), None);
    assert_eq!(parse_price("99999999999999999999999", "00"), None);
}

#[test]
fn pairing_stops_at_the_shorter_list() {
    let wholes = vec![some("1"), some("2"), some("3")];
    let fractions = vec![some("10"), some("20")];
    assert_eq!(pair_fragments(&wholes, &fractions), Ok(vec![110, 220]));
    assert_eq!(pair_fragments(&fractions, &wholes), Err(PricingError::ExtractionParse));
}

#[test]
fn unpaired_fragments_are_not_read() {
    let wholes = vec![some("1"), some("bad"), None];
    let fractions = vec![some("10")];
    assert_eq!(pair_fragments(&wholes, &fractions), Ok(vec![110]));
}

#[test]
fn missing_fragment_is_a_parse_error() {
    let wholes = vec![some("1"), None];
    let fractions = vec![some("10"), some("20")];
    assert_eq!(pair_fragments(&wholes, &fractions), Err(PricingError::ExtractionParse));
}

#[test]
fn extraction_keeps_match_order() {
    let buffer = "a-price-whole\\\">9<x a-price-fraction\\\">99< a-price-whole\\\">1,005< a-price-fraction\\\">00< a-price-whole\\\">3<";
    let extractor = PriceExtractor::new();
    assert_eq!(extractor.extract(buffer), Ok(vec![999, 100500]));
}

#[test]
fn default_patterns_match_plain_markup() {
    let buffer = "<span class=\"a-price-whole\">1,234<span class=\"a-price-decimal\">.</span></span><span class=\"a-price-fraction\">56</span>";
    assert_eq!(PriceExtractor::new().extract(buffer), Ok(vec![123456]));
}

#[test]
fn fraction_pattern_takes_two_digits() {
    let buffer = "a-price-whole\">5< a-price-fraction\">995<";
    assert_eq!(PriceExtractor::new().extract(buffer), Ok(vec![599]));
    let buffer = "a-price-whole\">5< a-price-fraction\">9<";
    assert_eq!(PriceExtractor::new().extract(buffer), Ok(vec![]));
}

#[test]
fn invalid_pattern_is_reported() {
    let extractor = PriceExtractor::with_patterns("(", "(\\d\\d)");
    assert_eq!(extractor.extract("12"), Err(PricingError::Pattern));
    let extractor = PriceExtractor::with_patterns("(\\d+)", "[");
    assert_eq!(extractor.extract("12"), Err(PricingError::Pattern));
}

#[test]
fn custom_patterns_capture_their_first_group() {
    let extractor = PriceExtractor::with_patterns("w=(\\d+)", "f=(\\d\\d)");
    assert_eq!(extractor.extract("w=12 f=34 w=5 f=06 f=77"), Ok(vec![1234, 506]));
}

#[test]
fn group_that_took_no_part_is_a_parse_error() {
    let extractor = PriceExtractor::with_patterns("w=(\\d+)?", "f=(\\d\\d)");
    assert_eq!(extractor.extract("w= f=34"), Err(PricingError::ExtractionParse));
}
