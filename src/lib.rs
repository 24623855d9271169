//! Reconstructs a trading account's activity timeline from raw exchange
//! records and aggregates it into exact profit-and-loss figures.
//!
//! - `timeline`: raw fill and funding records become typed events, merged
//!   into one stably time-ordered timeline.
//! - `pnl_calculator`: totals, per-coin breakdowns and the daily series.
//! - `decimal`: exact fixed-point amounts.
//! - `clock`: UTC instants and calendar dates.
//! - `pagination`: when to ask the exchange for another page of records.
//! - `error`: failed requests and their replies.

pub mod clock;
pub mod decimal;
pub mod error;
pub mod pagination;
pub mod pnl_calculator;
pub mod queries;
pub mod timeline;
