//! Price extraction for storefront search pages.
//!
//! Prices are held as whole cents (`u64`). The pipeline is: join the fetched
//! page bodies into one buffer, scan the buffer for whole and fractional price
//! fragments, pair them by position, trim the sorted distinct prices, and
//! optionally average what is left.

pub mod average;
pub mod error;
pub mod extract;
pub mod fetch;
pub mod price;
pub mod report;
pub mod trim;
