//! The ways a pricing run can fail.

use vstd::prelude::*;

verus! {

/// Why a stage of the pipeline gave up. Every stage fails fast: the first
/// error ends the run.
#[derive(Clone, Copy, Debug, PartialEq, Eq, Structural)]
pub enum PricingError {
    /// A page could not be fetched, or the fetch was abandoned before every
    /// page had arrived.
    Network,
    /// A fragment pattern is not a valid regular expression.
    Pattern,
    /// A paired fragment is missing or is not well-formed numeric text.
    ExtractionParse,
    /// Fewer than two distinct prices were left to trim.
    TrimBounds,
    /// An average was asked of no prices.
    Aggregation,
}

/// A list of prices, or an error, as a mathematical value.
pub open spec fn outcome_view(outcome: Result<Vec<u64>, PricingError>) -> Result<
    Seq<u64>,
    PricingError,
> {
    match outcome {
        Ok(prices) => Ok(prices@),
        Err(e) => Err(e),
    }
}

} // verus!
