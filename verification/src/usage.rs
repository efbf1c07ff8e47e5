//! How much of a network limit a measured quantity takes up, as the report
//! shows it.
//!
//! The shares themselves are floating-point quotients (`used / limit * 100`)
//! and are computed by the caller; the library receives them as the texts and
//! bands the report prints, and as integer keys that order records as the
//! floating-point values do.
use vstd::prelude::*;

verus! {

/// The three severity bands of the report: below 60% of the limit, from 60%
/// up to and including 85%, and above 85%.
#[derive(PartialEq, Eq, Structural, Clone, Copy, Debug)]
pub enum Severity {
    /// Under 60% of the limit (shown in green).
    Low,
    /// From 60% to 85% of the limit (shown in yellow).
    Elevated,
    /// Over 85% of the limit (shown in red).
    Critical,
}

/// One measured quantity's share of its limit, as the report shows it.
pub struct Share {
    /// The percentage with one decimal, without the percent sign (`12.5`,
    /// `inf`, `NaN`).
    pub percent: String,
    /// The severity band of the percentage.
    pub band: Severity,
    /// The width of its usage bar: the percentage capped at 100, with one
    /// decimal.
    pub bar: String,
}

/// The shares of one record in its five measured dimensions, and the keys
/// that rank it.
pub struct RecordShares {
    pub cpu: Share,
    pub memory: Share,
    pub reads: Share,
    pub writes: Share,
    pub events: Share,
    /// Orders records in the terminal report: a larger key is a larger
    /// heaviest percentage of a limit.
    pub report_key: u64,
    /// Orders records in the HTML report: a larger key is a larger heaviest
    /// fraction of a limit.
    pub card_key: u64,
}

} // verus!
