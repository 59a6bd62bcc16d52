//! What a run prints: the trimmed prices, their average, or both.

use vstd::prelude::*;
use crate::average::{average, mean};
use crate::error::{outcome_view, PricingError};
use crate::extract::PriceExtractor;
use crate::price::{format_price, price_text, push_price};
use crate::trim::{law_trimmed_is_not_empty, trim, trim_outcome};

verus! {

/// How a list with no prices is written.
pub const EMPTY_LIST: &'static str = "[]";

/// What opens a list of prices.
pub const LIST_OPEN: &'static str = "[\n";

/// What stands before each price of a list.
pub const ITEM_INDENT: &'static str = "    ";

/// What stands behind each price of a list.
pub const ITEM_END: &'static str = ",\n";

/// What closes a list of prices.
pub const LIST_CLOSE: &'static str = "]";

/// The lines of a list, one per price: indent, price, comma.
pub open spec fn items_text(prices: Seq<u64>) -> Seq<char>
    decreases prices.len(),
{
    if prices.len() == 0 {
        Seq::empty()
    } else {
        items_text(prices.drop_last()) + ITEM_INDENT@ + price_text(prices.last() as nat) + ITEM_END@
    }
}

/// A list of prices written out: one price to a line between square
/// brackets, or just the brackets where there is none.
pub open spec fn list_text(prices: Seq<u64>) -> Seq<char> {
    if prices.len() == 0 {
        EMPTY_LIST@
    } else {
        LIST_OPEN@ + items_text(prices) + LIST_CLOSE@
    }
}

/// What is printed for `prices`, piece by piece. With `avg` the average is
/// printed, after the list where `raw` is set too; without `avg` the list
/// alone, whatever `raw` says.
pub open spec fn report_text(prices: Seq<u64>, avg: bool, raw: bool) -> Result<
    Seq<Seq<char>>,
    PricingError,
> {
    if !avg {
        Ok(seq![list_text(prices)])
    } else if prices.len() == 0 {
        Err(PricingError::Aggregation)
    } else if raw {
        Ok(seq![list_text(prices), price_text(mean(prices))])
    } else {
        Ok(seq![price_text(mean(prices))])
    }
}

/// What a whole run prints, given what extraction made of the buffer.
pub open spec fn run_text(extracted: Result<Seq<u64>, PricingError>, avg: bool, raw: bool) -> Result<
    Seq<Seq<char>>,
    PricingError,
> {
    match raw_outcome(extracted) {
        Ok(kept) => report_text(kept, avg, raw),
        Err(e) => Err(e),
    }
}

/// The trimmed prices, given what extraction made of the buffer.
pub open spec fn raw_outcome(extracted: Result<Seq<u64>, PricingError>) -> Result<
    Seq<u64>,
    PricingError,
> {
    match extracted {
        Ok(prices) => trim_outcome(prices),
        Err(e) => Err(e),
    }
}

/// Pieces of text, or an error, as a mathematical value.
pub open spec fn lines_view(outcome: Result<Vec<String>, PricingError>) -> Result<
    Seq<Seq<char>>,
    PricingError,
> {
    match outcome {
        Ok(lines) => Ok(lines.deep_view()),
        Err(e) => Err(e),
    }
}

/// Writes a list of prices out, one price to a line.
pub fn render_prices(prices: &Vec<u64>) -> (text: String)
    ensures
        text@ == list_text(prices@),
{
    if prices.len() == 0 {
        return EMPTY_LIST.to_owned();
    }
    let mut text = LIST_OPEN.to_owned();
    let mut i: usize = 0;
    while i < prices.len()
        invariant
            i <= prices.len(),
            text@ == LIST_OPEN@ + items_text(prices@.take(i as int)),
        decreases prices.len() - i,
    {
        proof {
            assert(prices@.take(i + 1).drop_last() =~= prices@.take(i as int));
        }
        text.append(ITEM_INDENT);
        push_price(&mut text, prices[i]);
        text.append(ITEM_END);
        i = i + 1;
        assert(text@ =~= LIST_OPEN@ + items_text(prices@.take(i as int)));
    }
    proof {
        prices@.lemma_take_len();
    }
    text.append(LIST_CLOSE);
    text
}

/// Decides what to print for `prices` and writes it: see `report_text`.
/// Fails with `Aggregation` if and only if the average is asked of no
/// prices.
pub fn report(prices: &Vec<u64>, avg: bool, raw: bool) -> (outcome: Result<
    Vec<String>,
    PricingError,
>)
    ensures
        lines_view(outcome) == report_text(prices@, avg, raw),
{
    let mut lines: Vec<String> = Vec::new();
    if avg {
        let cents = match average(prices) {
            Ok(cents) => cents,
            Err(e) => {
                return Err(e);
            },
        };
        if raw {
            lines.push(render_prices(prices));
        }
        lines.push(format_price(cents));
    } else {
        lines.push(render_prices(prices));
    }
    assert(lines.deep_view() =~= report_text(prices@, avg, raw)->Ok_0);
    Ok(lines)
}

/// Extracts the prices from `buffer` and trims them.
pub fn get_pricing_raw(extractor: &PriceExtractor, buffer: &str) -> (outcome: Result<
    Vec<u64>,
    PricingError,
>)
    ensures
        outcome_view(outcome) == raw_outcome(extractor.extracted(buffer@)),
{
    match extractor.extract(buffer) {
        Ok(prices) => trim(prices),
        Err(e) => Err(e),
    }
}

/// A whole run on a fetched buffer: extract, trim, report.
pub fn run(extractor: &PriceExtractor, buffer: &str, avg: bool, raw: bool) -> (outcome: Result<
    Vec<String>,
    PricingError,
>)
    ensures
        lines_view(outcome) == run_text(extractor.extracted(buffer@), avg, raw),
{
    match get_pricing_raw(extractor, buffer) {
        Ok(kept) => report(&kept, avg, raw),
        Err(e) => Err(e),
    }
}

/// A whole run never fails for want of prices to average: what a trim
/// keeps is never empty. A run that fails does so in extraction or in the
/// trim.
pub proof fn law_run_always_has_prices_to_average(
    extracted: Result<Seq<u64>, PricingError>,
    avg: bool,
    raw: bool,
)
    ensures
        run_text(extracted, avg, raw) is Ok <==> raw_outcome(extracted) is Ok,
        extracted is Ok ==> run_text(extracted, avg, raw) != Err::<Seq<Seq<char>>, PricingError>(
            PricingError::Aggregation,
        ),
{
    if let Ok(prices) = extracted {
        law_trimmed_is_not_empty(prices);
    }
}

} // verus!
