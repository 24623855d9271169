//! The parameters of the account queries: a wallet and an optional lower
//! bound on record timestamps.

use vstd::prelude::*;

verus! {

/// Parameters of a fills query.
#[derive(Debug)]
pub struct FillsQuery {
    pub wallet: String,
    pub since: Option<i64>,
}

/// Parameters of a funding-payments query.
#[derive(Debug)]
pub struct FundingQuery {
    pub wallet: String,
    pub since: Option<i64>,
}

/// Parameters of a PnL query.
#[derive(Debug)]
pub struct PnlQuery {
    pub wallet: String,
    pub since: Option<i64>,
}

/// Parameters of a timeline query.
#[derive(Debug)]
pub struct TimelineQuery {
    pub wallet: String,
    pub since: Option<i64>,
}

} // verus!
