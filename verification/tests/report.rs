use amazon_pricing::error::PricingError;
use amazon_pricing::extract::PriceExtractor;
use amazon_pricing::fetch::{PageFetcher, SearchQuery};
use amazon_pricing::report::{get_pricing_raw, render_prices, report, run};

fn listing(whole: &str, fraction: &str) -> String {
    format!(
        "<span class=\"a-price\"><span class=\"a-price-whole\">{}<span class=\"a-price-decimal\">.</span></span><span class=\"a-price-fraction\">{}</span></span>\n",
        whole, fraction
    )
}

fn synthetic_buffer() -> String {
    let page_one = listing("9", "99") + &listing("19", "99") + &listing("5", "00")
        + &listing("5", "00") + &listing("100", "00");
    let page_two = listing("2", "00") + &listing("3", "00") + &listing("4", "00")
        + &listing("6", "00") + &listing("7", "00");
    let fetcher = PageFetcher::new(&SearchQuery::new("kettle", Some(2)));
    fetcher.receive(&page_one).receive(&page_two).finish().unwrap()
}

#[test]
fn list_is_written_one_price_to_a_line() {
    assert_eq!(render_prices(&vec![300, 1999]), "[\n    3.00,\n    19.99,\n]");
    assert_eq!(render_prices(&vec![5]), "[\n    0.05,\n]");
    assert_eq!(render_prices(&vec![]), "[]");
}

#[test]
fn without_avg_only_the_list_is_printed() {
    let prices = vec![300, 400];
    let list = "[\n    3.00,\n    4.00,\n]".to_string();
    assert_eq!(report(&prices, false, false), Ok(vec![list.clone()]));
    assert_eq!(report(&prices, false, true), Ok(vec![list]));
    assert_eq!(report(&vec![], false, false), Ok(vec!["[]".to_string()]));
}

#[test]
fn with_avg_the_average_is_printed_after_the_list_if_raw() {
    let prices = vec![300, 401];
    let list = "[\n    3.00,\n    4.01,\n]".to_string();
    assert_eq!(report(&prices, true, false), Ok(vec!["3.51".to_string()]));
    assert_eq!(report(&prices, true, true), Ok(vec![list, "3.51".to_string()]));
}

#[test]
fn average_of_no_prices_is_refused() {
    assert_eq!(report(&vec![], true, false), Err(PricingError::Aggregation));
    assert_eq!(report(&vec![], true, true), Err(PricingError::Aggregation));
}

#[test]
fn synthetic_buffer_end_to_end() {
    let buffer = synthetic_buffer();
    let extractor = PriceExtractor::new();
    assert_eq!(
        extractor.extract(&buffer),
        Ok(vec![999, 1999, 500, 500, 10000, 200, 300, 400, 600, 700])
    );
    assert_eq!(
        get_pricing_raw(&extractor, &buffer),
        Ok(vec![300, 400, 500, 600, 700, 999, 1999])
    );
    let list = "[\n    3.00,\n    4.00,\n    5.00,\n    6.00,\n    7.00,\n    9.99,\n    19.99,\n]";
    assert_eq!(run(&extractor, &buffer, false, false), Ok(vec![list.to_string()]));
    assert_eq!(run(&extractor, &buffer, true, false), Ok(vec!["7.85".to_string()]));
    assert_eq!(
        run(&extractor, &buffer, true, true),
        Ok(vec![list.to_string(), "7.85".to_string()])
    );
}

#[test]
fn empty_buffer_has_too_few_prices() {
    let fetcher = PageFetcher::new(&SearchQuery::new("kettle", Some(0)));
    let buffer = fetcher.finish().unwrap();
    assert_eq!(buffer, "");
    let extractor = PriceExtractor::new();
    assert_eq!(extractor.extract(&buffer), Ok(vec![]));
    assert_eq!(get_pricing_raw(&extractor, &buffer), Err(PricingError::TrimBounds));
    assert_eq!(run(&extractor, &buffer, true, true), Err(PricingError::TrimBounds));
}

#[test]
fn run_reports_the_first_failure() {
    let buffer = synthetic_buffer();
    let broken = PriceExtractor::with_patterns("(", "(\\d\\d)");
    assert_eq!(run(&broken, &buffer, false, false), Err(PricingError::Pattern));
    let loose = PriceExtractor::with_patterns("a-price-whole\">(\\d+)", "a-price-fraction\">(\\d)");
    assert_eq!(run(&loose, &buffer, false, false), Err(PricingError::ExtractionParse));
}

#[test]
fn thousands_separator_in_markup() {
    let fetcher = PageFetcher::new(&SearchQuery::new("laptop", None));
    let body = listing("1,234", "56") + &listing("999", "00") + &listing("2,000", "01");
    let buffer = fetcher.receive(&body).finish().unwrap();
    let extractor = PriceExtractor::new();
    assert_eq!(extractor.extract(&buffer), Ok(vec![123456, 99900, 200001]));
    assert_eq!(get_pricing_raw(&extractor, &buffer), Ok(vec![99900, 123456]));
}

#[test]
fn buffer_is_raw_markup() {
    let body = listing("12", "34");
    let fetcher = PageFetcher::new(&SearchQuery::new("kettle", None));
    let buffer = fetcher.receive(&body).finish().unwrap();
    assert_eq!(buffer, body);
    assert!(buffer.contains("class=\"a-price-whole\">12<"));
    assert_eq!(PriceExtractor::new().extract(&buffer), Ok(vec![1234]));
}

#[test]
fn escaped_quotes_in_markup_still_match() {
    let buffer = "a-price-whole\\\">7< a-price-fraction\\\\\">25<";
    assert_eq!(PriceExtractor::new().extract(buffer), Ok(vec![725]));
}
