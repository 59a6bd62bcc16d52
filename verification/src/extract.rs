//! Finding price fragments in a buffer of page text and pairing them up.
//!
//! Two patterns scan the same buffer independently. The first capture group
//! of each match is a fragment: the whole part of a price for one pattern,
//! the fractional part for the other. The i-th whole fragment belongs with
//! the i-th fractional fragment; what the longer list has beyond the shorter
//! is dropped. Nothing checks that the two fragments of a pair stood side by
//! side in the text: where the markup holds one kind of fragment without the
//! other, later pairs are shifted.

use vstd::prelude::*;
use crate::error::{outcome_view, PricingError};
use crate::price::{fits_u64, parse_price, price_cents};

verus! {

/// The pattern for the whole part of a price: digits, with at most one
/// thousands separator, behind the opening of the whole-price element. The
/// quote that closes the class attribute may stand escaped, behind
/// backslashes.
pub const WHOLE_PATTERN: &'static str = "a-price-whole\\\\*\">(\\d+(,\\d+)?)";

/// The pattern for the fractional part of a price: two digits behind the
/// opening of the price-fraction element, its quote escaped or not.
pub const FRACTION_PATTERN: &'static str = "a-price-fraction\\\\*\">(\\d{2})";

/// The capture group that holds the fragment.
pub const FRAGMENT_GROUP: usize = 1;

/// `regex::Error`, the reason a pattern did not compile. It is carried as an
/// opaque value: nothing is read from it.
#[verifier::external_type_specification]
#[verifier::external_body]
pub struct ExRegexError(regex::Error);

/// What the `regex` crate finds when `pattern` is compiled and `text` is
/// searched for all its non-overlapping matches: `None` where the pattern
/// does not compile, else for each match in order the text of capture group
/// `group`, or `None` where the pattern has no such group or the group took
/// no part in the match.
pub uninterp spec fn group_captures(pattern: Seq<char>, group: usize, text: Seq<char>) -> Option<
    Seq<Option<Seq<char>>>,
>;

/// Compiles `pattern` with `regex::Regex::new` and walks
/// `Regex::captures_iter` over `text`, reading capture group `group` of each
/// match with `Captures::get` and `Match::as_str`. The contract only names
/// the outcome: nothing is claimed about which text matches.
#[verifier::external_body]
fn scan_group(pattern: &str, group: usize, text: &str) -> (found: Result<
    Vec<Option<String>>,
    regex::Error,
>)
    ensures
        found is Ok <==> group_captures(pattern@, group, text@) is Some,
        found matches Ok(fragments) ==> group_captures(pattern@, group, text@) == Some(
            fragments.deep_view(),
        ),
{
    let re = regex::Regex::new(pattern)?;
    Ok(re.captures_iter(text).map(|c| c.get(group).map(|m| m.as_str().to_string())).collect())
}

/// The price of one pair of fragments, where both are present, well formed
/// and the price fits in 64 bits.
pub open spec fn fragment_price(whole: Option<Seq<char>>, fraction: Option<Seq<char>>) -> Option<
    u64,
> {
    match (whole, fraction) {
        (Some(w), Some(f)) => fits_u64(price_cents(w, f)),
        _ => None,
    }
}

/// How many pairs two fragment lists make: the length of the shorter.
pub open spec fn pair_count(wholes: Seq<Option<Seq<char>>>, fractions: Seq<Option<Seq<char>>>) -> nat {
    if wholes.len() <= fractions.len() {
        wholes.len()
    } else {
        fractions.len()
    }
}

/// Whether every pair of fragments has a price.
pub open spec fn all_pairs_priced(
    wholes: Seq<Option<Seq<char>>>,
    fractions: Seq<Option<Seq<char>>>,
) -> bool {
    forall|i: int|
        0 <= i < pair_count(wholes, fractions) ==> (#[trigger] fragment_price(
            wholes[i],
            fractions[i],
        )) is Some
}

/// The prices of the pairs, in the order of the fragments.
pub open spec fn paired_prices(
    wholes: Seq<Option<Seq<char>>>,
    fractions: Seq<Option<Seq<char>>>,
) -> Seq<u64> {
    Seq::new(pair_count(wholes, fractions), |i: int| fragment_price(wholes[i], fractions[i])->0)
}

/// What pairing two fragment lists gives: the prices, or a parse error as
/// soon as one pair has none.
pub open spec fn pairing(
    wholes: Seq<Option<Seq<char>>>,
    fractions: Seq<Option<Seq<char>>>,
) -> Result<Seq<u64>, PricingError> {
    if all_pairs_priced(wholes, fractions) {
        Ok(paired_prices(wholes, fractions))
    } else {
        Err(PricingError::ExtractionParse)
    }
}

/// What extraction gives from the outcomes of the two scans.
pub open spec fn extraction(
    whole_scan: Option<Seq<Option<Seq<char>>>>,
    fraction_scan: Option<Seq<Option<Seq<char>>>>,
) -> Result<Seq<u64>, PricingError> {
    match (whole_scan, fraction_scan) {
        (Some(wholes), Some(fractions)) => pairing(wholes, fractions),
        _ => Err(PricingError::Pattern),
    }
}

/// Pairs the i-th whole fragment with the i-th fractional fragment and reads
/// each pair as a price in cents. Fragments of the longer list that have no
/// partner are ignored. Fails with `ExtractionParse` if and only if some pair
/// lacks a fragment, is malformed, or denotes a price beyond 64 bits.
pub fn pair_fragments(wholes: &Vec<Option<String>>, fractions: &Vec<Option<String>>) -> (outcome:
    Result<Vec<u64>, PricingError>)
    ensures
        outcome_view(outcome) == pairing(wholes.deep_view(), fractions.deep_view()),
        outcome matches Ok(prices) ==> prices.len() == pair_count(
            wholes.deep_view(),
            fractions.deep_view(),
        ),
{
    let ghost ws = wholes.deep_view();
    let ghost fs = fractions.deep_view();
    let n = if wholes.len() <= fractions.len() {
        wholes.len()
    } else {
        fractions.len()
    };
    let mut prices: Vec<u64> = Vec::new();
    let mut i: usize = 0;
    while i < n
        invariant
            ws == wholes.deep_view(),
            fs == fractions.deep_view(),
            n == pair_count(ws, fs),
            i <= n,
            prices.len() == i,
            forall|j: int| 0 <= j < i ==> fragment_price(ws[j], fs[j]) == Some(#[trigger] prices[j]),
        decreases n - i,
    {
        let cents = match (&wholes[i], &fractions[i]) {
            (Some(w), Some(f)) => parse_price(w.as_str(), f.as_str()),
            _ => None,
        };
        match cents {
            Some(c) => {
                prices.push(c);
            },
            None => {
                assert(fragment_price(ws[i as int], fs[i as int]) is None);
                return Err(PricingError::ExtractionParse);
            },
        }
        i = i + 1;
    }
    proof {
        assert forall|j: int| 0 <= j < pair_count(ws, fs) implies (#[trigger] fragment_price(
            ws[j],
            fs[j],
        )) is Some by {
            assert(fragment_price(ws[j], fs[j]) == Some(prices[j]));
        }
        assert(prices@ =~= paired_prices(ws, fs));
    }
    Ok(prices)
}

/// The extraction stage: the two patterns that locate price fragments.
#[derive(Clone, Debug)]
pub struct PriceExtractor {
    /// Locates the whole part of each price.
    pub whole_pattern: String,
    /// Locates the fractional part of each price.
    pub fraction_pattern: String,
}

impl PriceExtractor {
    /// An extractor with the storefront's own patterns.
    pub fn new() -> (extractor: Self)
        ensures
            extractor.whole_pattern@ == WHOLE_PATTERN@,
            extractor.fraction_pattern@ == FRACTION_PATTERN@,
    {
        PriceExtractor {
            whole_pattern: WHOLE_PATTERN.to_owned(),
            fraction_pattern: FRACTION_PATTERN.to_owned(),
        }
    }

    /// An extractor with patterns of the caller's choosing, for markup other
    /// than the storefront's.
    pub fn with_patterns(whole_pattern: &str, fraction_pattern: &str) -> (extractor: Self)
        ensures
            extractor.whole_pattern@ == whole_pattern@,
            extractor.fraction_pattern@ == fraction_pattern@,
    {
        PriceExtractor {
            whole_pattern: whole_pattern.to_owned(),
            fraction_pattern: fraction_pattern.to_owned(),
        }
    }

    /// What this extractor makes of `buffer`.
    pub open spec fn extracted(&self, buffer: Seq<char>) -> Result<Seq<u64>, PricingError> {
        extraction(
            group_captures(self.whole_pattern@, FRAGMENT_GROUP, buffer),
            group_captures(self.fraction_pattern@, FRAGMENT_GROUP, buffer),
        )
    }

    /// Scans `buffer` with both patterns and pairs what they capture, in the
    /// order of the matches. Fails with `Pattern` where a pattern does not
    /// compile, and with `ExtractionParse` where a pair has no price.
    pub fn extract(&self, buffer: &str) -> (outcome: Result<Vec<u64>, PricingError>)
        ensures
            outcome_view(outcome) == self.extracted(buffer@),
            outcome matches Ok(prices) ==> {
                let wholes = group_captures(self.whole_pattern@, FRAGMENT_GROUP, buffer@);
                let fractions = group_captures(self.fraction_pattern@, FRAGMENT_GROUP, buffer@);
                &&& wholes is Some
                &&& fractions is Some
                &&& prices.len() == pair_count(wholes->0, fractions->0)
                &&& forall|i: int|
                    0 <= i < prices.len() ==> Some(#[trigger] prices[i]) == fragment_price(
                        wholes->0[i],
                        fractions->0[i],
                    )
            },
    {
        let wholes = match scan_group(self.whole_pattern.as_str(), FRAGMENT_GROUP, buffer) {
            Ok(found) => found,
            Err(_) => {
                return Err(PricingError::Pattern);
            },
        };
        let fractions = match scan_group(self.fraction_pattern.as_str(), FRAGMENT_GROUP, buffer) {
            Ok(found) => found,
            Err(_) => {
                return Err(PricingError::Pattern);
            },
        };
        pair_fragments(&wholes, &fractions)
    }
}

/// Extraction from a buffer with N whole matches and M fractional matches
/// yields exactly min(N, M) prices, and the i-th price is that of the i-th
/// whole fragment with the i-th fractional fragment: results come in the
/// order of the matches, not in order of value.
pub proof fn law_extraction_pairs_in_match_order(
    wholes: Seq<Option<Seq<char>>>,
    fractions: Seq<Option<Seq<char>>>,
)
    ensures
        extraction(Some(wholes), Some(fractions)) matches Ok(prices) ==> {
            &&& prices.len() == wholes.len() || prices.len() == fractions.len()
            &&& prices.len() <= wholes.len()
            &&& prices.len() <= fractions.len()
            &&& forall|i: int|
                0 <= i < prices.len() ==> Some(#[trigger] prices[i]) == fragment_price(
                    wholes[i],
                    fractions[i],
                )
        },
        extraction(Some(wholes), Some(fractions)) is Ok <==> all_pairs_priced(wholes, fractions),
{
}

} // verus!
