//! Collects weighted impression statistics from a paginated ad archive.
//!
//! Amounts are exact fixed-point integers: a parsed quantity counts
//! billionths of a unit, and an accumulated bound counts 10^-18 units.
pub mod amount;
pub mod table;
pub mod metric;
pub mod result;
pub mod merge;
pub mod record;
pub mod page;
pub mod collector;
