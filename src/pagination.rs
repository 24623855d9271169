//! The paging rule for fetching a wallet's records: pages come in ascending
//! time order, a short page is the last one, and the next page starts just
//! after the last record seen.

use vstd::prelude::*;

verus! {

/// The most records that one page holds.
pub const MAX_ITEMS_PER_REQUEST: usize = 500;

/// What to do after a page has arrived.
#[derive(Debug, PartialEq, Eq, Structural)]
pub enum PageStep {
    /// No page follows.
    Stop,
    /// Ask for the page that starts at this timestamp.
    Next(i64),
}

/// Decides from one page, given its number of records and the timestamp of
/// its last record (where that record has one), whether another page is due.
pub fn next_page(items_count: usize, last_timestamp: Option<i64>) -> (r: PageStep)
    ensures
        items_count < MAX_ITEMS_PER_REQUEST ==> r == PageStep::Stop,
        items_count >= MAX_ITEMS_PER_REQUEST ==> match last_timestamp {
            Some(t) => if t < i64::MAX {
                r == PageStep::Next((t + 1) as i64)
            } else {
                r == PageStep::Stop
            },
            None => r == PageStep::Stop,
        },
{
    if items_count < MAX_ITEMS_PER_REQUEST {
        return PageStep::Stop;
    }
    match last_timestamp {
        Some(t) => if t < i64::MAX {
            PageStep::Next(t + 1)
        } else {
            PageStep::Stop
        },
        None => PageStep::Stop,
    }
}

} // verus!
