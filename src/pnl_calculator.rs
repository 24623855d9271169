//! Aggregating a timeline into profit-and-loss figures.

use crate::clock::{now_millis, utc_date, utc_date_of};
use crate::decimal::{fits_i128, AMOUNT_LIMIT, Decimal};
use crate::timeline::{Timeline, TimelineEvent, field_units, read_amount};
use vstd::prelude::*;

verus! {

/// Largest magnitude, in units, of an externally supplied unrealized PnL (2^124).
pub const SUM_LIMIT: i128 = 0x1000_0000_0000_0000_0000_0000_0000_0000;

/// Profit and loss of one coin.
#[derive(Debug)]
pub struct AssetPnl {
    pub coin: String,
    pub realized_pnl: Decimal,
    pub funding_pnl: Decimal,
    pub fees: Decimal,
    pub net_pnl: Decimal,
    pub trade_count: u64,
}

/// Totals over a timeline, with one entry per coin that an event refers to.
#[derive(Debug)]
pub struct PnlSummary {
    pub wallet: String,
    pub period_start: i64,
    pub period_end: i64,
    pub realized_pnl: Decimal,
    pub unrealized_pnl: Decimal,
    pub total_pnl: Decimal,
    pub funding_pnl: Decimal,
    pub trading_fees: Decimal,
    pub net_pnl: Decimal,
    pub by_asset: Vec<AssetPnl>,
}

/// What one event contributes to an aggregate.
pub enum Measure {
    Realized,
    Funding,
    Fees,
    Trades,
}

/// The coin of a fill or funding event; other events count toward no coin.
pub open spec fn asset_of(e: TimelineEvent) -> Option<Seq<char>> {
    match e {
        TimelineEvent::Fill { coin, .. } => Some(coin@),
        TimelineEvent::Funding { coin, .. } => Some(coin@),
        _ => None,
    }
}

pub open spec fn measure(e: TimelineEvent, m: Measure) -> int {
    match m {
        Measure::Realized => match e {
            TimelineEvent::Fill { realized_pnl: Some(p), .. } => p.units as int,
            _ => 0,
        },
        Measure::Funding => match e {
            TimelineEvent::Funding { amount, .. } => amount.units as int,
            _ => 0,
        },
        Measure::Fees => match e {
            TimelineEvent::Fill { fee, .. } => fee.units as int,
            _ => 0,
        },
        Measure::Trades => match e {
            TimelineEvent::Fill { .. } => 1,
            _ => 0,
        },
    }
}

/// The sum of a measure over all events.
pub open spec fn total(s: Seq<TimelineEvent>, m: Measure) -> int
    decreases s.len(),
{
    if s.len() == 0 {
        0
    } else {
        total(s.drop_last(), m) + measure(s.last(), m)
    }
}

/// The sum of a measure over the events of one coin.
pub open spec fn asset_total(s: Seq<TimelineEvent>, c: Seq<char>, m: Measure) -> int
    decreases s.len(),
{
    if s.len() == 0 {
        0
    } else {
        asset_total(s.drop_last(), c, m) + if asset_of(s.last()) == Some(c) {
            measure(s.last(), m)
        } else {
            0
        }
    }
}

pub open spec fn entry_measure(a: AssetPnl, m: Measure) -> int {
    match m {
        Measure::Realized => a.realized_pnl.units as int,
        Measure::Funding => a.funding_pnl.units as int,
        Measure::Fees => a.fees.units as int,
        Measure::Trades => a.trade_count as int,
    }
}

/// The sum of a measure over per-coin entries.
pub open spec fn entries_total(v: Seq<AssetPnl>, m: Measure) -> int
    decreases v.len(),
{
    if v.len() == 0 {
        0
    } else {
        entries_total(v.drop_last(), m) + entry_measure(v.last(), m)
    }
}

/// The entry holds its coin's realized PnL, funding, fees and trade count over `s`.
pub open spec fn entry_tracks(a: AssetPnl, s: Seq<TimelineEvent>) -> bool {
    &&& a.realized_pnl.units == asset_total(s, a.coin@, Measure::Realized)
    &&& a.funding_pnl.units == asset_total(s, a.coin@, Measure::Funding)
    &&& a.fees.units == asset_total(s, a.coin@, Measure::Fees)
    &&& a.trade_count == asset_total(s, a.coin@, Measure::Trades)
    &&& a.net_pnl.units == a.realized_pnl.units + a.funding_pnl.units - a.fees.units
}

/// Each of the entry's sums is at most `n` amounts.
pub open spec fn entry_bounded(a: AssetPnl, n: int) -> bool {
    &&& -(n * AMOUNT_LIMIT) <= a.realized_pnl.units <= n * AMOUNT_LIMIT
    &&& -(n * AMOUNT_LIMIT) <= a.funding_pnl.units <= n * AMOUNT_LIMIT
    &&& -(n * AMOUNT_LIMIT) <= a.fees.units <= n * AMOUNT_LIMIT
    &&& a.trade_count <= n
}

/// Some event of `s` refers to coin `c`.
pub open spec fn coin_seen(s: Seq<TimelineEvent>, c: Seq<char>) -> bool {
    exists|k: int| 0 <= k < s.len() && asset_of(#[trigger] s[k]) == Some(c)
}

/// The per-coin entries are exactly one for each coin that `s` refers to, each
/// with that coin's totals and its net PnL.
pub open spec fn entries_for(v: Seq<AssetPnl>, s: Seq<TimelineEvent>) -> bool {
    &&& forall|i: int, j: int| 0 <= i < j < v.len() ==> v[i].coin@ != v[j].coin@
    &&& forall|i: int| #![trigger v[i]] 0 <= i < v.len() ==> coin_seen(s, v[i].coin@)
    &&& forall|k: int|
        0 <= k < s.len() && asset_of(#[trigger] s[k]) is Some ==> exists|i: int|
            0 <= i < v.len() && Some(#[trigger] v[i].coin@) == asset_of(s[k])
    &&& forall|i: int| 0 <= i < v.len() ==> entry_tracks(#[trigger] v[i], s)
}

proof fn lemma_asset_total_absent(s: Seq<TimelineEvent>, c: Seq<char>, m: Measure)
    requires
        forall|k: int| 0 <= k < s.len() ==> asset_of(#[trigger] s[k]) != Some(c),
    ensures
        asset_total(s, c, m) == 0,
    decreases s.len(),
{
    if s.len() > 0 {
        lemma_asset_total_absent(s.drop_last(), c, m);
    }
}

proof fn lemma_entries_total_update(v: Seq<AssetPnl>, i: int, a: AssetPnl, m: Measure)
    requires
        0 <= i < v.len(),
    ensures
        entries_total(v.update(i, a), m) == entries_total(v, m) - entry_measure(v[i], m)
            + entry_measure(a, m),
    decreases v.len(),
{
    if i < v.len() - 1 {
        assert(v.update(i, a).drop_last() =~= v.drop_last().update(i, a));
        lemma_entries_total_update(v.drop_last(), i, a, m);
    } else {
        assert(v.update(i, a).drop_last() =~= v.drop_last());
    }
}

proof fn lemma_entries_total_push(v: Seq<AssetPnl>, a: AssetPnl, m: Measure)
    ensures
        entries_total(v.push(a), m) == entries_total(v, m) + entry_measure(a, m),
{
    assert(v.push(a).drop_last() =~= v);
}

/// Finds the entry of `coin`, adding an empty one at the end where there is none.
fn find_or_add(entries: &mut Vec<AssetPnl>, coin: &String) -> (idx: usize)
    ensures
        idx < final(entries)@.len(),
        final(entries)@[idx as int].coin@ == coin@,
        (idx < old(entries)@.len() && final(entries)@ == old(entries)@) || (idx == old(
            entries,
        )@.len() && (forall|i: int| 0 <= i < old(entries)@.len() ==> old(entries)@[i].coin@ != coin@)
            && final(entries)@ == old(entries)@.push(
            AssetPnl {
                coin: *coin,
                realized_pnl: Decimal { units: 0 },
                funding_pnl: Decimal { units: 0 },
                fees: Decimal { units: 0 },
                net_pnl: Decimal { units: 0 },
                trade_count: 0,
            },
        )),
{
    let mut i: usize = 0;
    while i < entries.len()
        invariant
            i <= entries@.len(),
            entries@ == old(entries)@,
            forall|j: int| 0 <= j < i ==> entries@[j].coin@ != coin@,
        decreases entries@.len() - i,
    {
        if entries[i].coin == *coin {
            return i;
        }
        i = i + 1;
    }
    entries.push(
        AssetPnl {
            coin: coin.clone(),
            realized_pnl: Decimal::zero(),
            funding_pnl: Decimal::zero(),
            fees: Decimal::zero(),
            net_pnl: Decimal::zero(),
            trade_count: 0,
        },
    );
    i
}


/// What a fill or funding event adds to its coin's entry.
struct Contribution<'a> {
    coin: &'a String,
    realized: i128,
    funding: i128,
    fees: i128,
    trades: u64,
}

/// The coin and measures of a fill or funding event; `None` for other events.
fn contribution<'a>(e: &'a TimelineEvent) -> (r: Option<Contribution<'a>>)
    requires
        e.within_limits(),
    ensures
        r is Some <==> asset_of(*e) is Some,
        r matches Some(c) ==> {
            &&& asset_of(*e) == Some(c.coin@)
            &&& c.realized == measure(*e, Measure::Realized)
            &&& c.funding == measure(*e, Measure::Funding)
            &&& c.fees == measure(*e, Measure::Fees)
            &&& c.trades == measure(*e, Measure::Trades)
            &&& -AMOUNT_LIMIT <= c.realized <= AMOUNT_LIMIT
            &&& -AMOUNT_LIMIT <= c.funding <= AMOUNT_LIMIT
            &&& -AMOUNT_LIMIT <= c.fees <= AMOUNT_LIMIT
            &&& c.trades <= 1
        },
        r is None ==> measure(*e, Measure::Realized) == 0 && measure(*e, Measure::Funding) == 0
            && measure(*e, Measure::Fees) == 0 && measure(*e, Measure::Trades) == 0,
{
    match e {
        TimelineEvent::Fill { coin, fee, realized_pnl, .. } => {
            let realized = match realized_pnl {
                Some(p) => p.units,
                None => 0,
            };
            Some(Contribution { coin, realized, funding: 0, fees: fee.units, trades: 1 })
        },
        TimelineEvent::Funding { coin, amount, .. } => {
            Some(Contribution { coin, realized: 0, funding: amount.units, fees: 0, trades: 0 })
        },
        _ => None,
    }
}

/// Computes PnL figures from timelines and account snapshots.
pub struct PnlCalculator;

impl PnlCalculator {
    pub fn new() -> (r: PnlCalculator) {
        PnlCalculator
    }

    /// The PnL summary of a timeline, where `now` stands for the period of an
    /// empty timeline.
    pub fn summarize(
        &self,
        wallet: &str,
        timeline: &Timeline,
        unrealized_pnl: Decimal,
        now: i64,
    ) -> (r: PnlSummary)
        requires
            timeline.wf(),
            -SUM_LIMIT <= unrealized_pnl.units <= SUM_LIMIT,
        ensures
            r.wallet@ == wallet@,
            r.period_start == match timeline.from_timestamp {
                Some(t) => t,
                None => now,
            },
            r.period_end == match timeline.to_timestamp {
                Some(t) => t,
                None => now,
            },
            r.realized_pnl.units == total(timeline.events@, Measure::Realized),
            r.funding_pnl.units == total(timeline.events@, Measure::Funding),
            r.trading_fees.units == total(timeline.events@, Measure::Fees),
            r.unrealized_pnl == unrealized_pnl,
            r.total_pnl.units == r.realized_pnl.units + unrealized_pnl.units,
            r.net_pnl.units == r.total_pnl.units + r.funding_pnl.units - r.trading_fees.units,
            entries_for(r.by_asset@, timeline.events@),
            entries_total(r.by_asset@, Measure::Realized) == r.realized_pnl.units,
            entries_total(r.by_asset@, Measure::Funding) == r.funding_pnl.units,
            entries_total(r.by_asset@, Measure::Fees) == r.trading_fees.units,
    {
        let ghost ev = timeline.events@;
        let mut realized: i128 = 0;
        let mut funding: i128 = 0;
        let mut fees: i128 = 0;
        let mut entries: Vec<AssetPnl> = Vec::new();
        let mut k: usize = 0;
        assert(ev.subrange(0, 0) =~= Seq::<TimelineEvent>::empty());
        while k < timeline.events.len()
            invariant
                k <= ev.len(),
                ev == timeline.events@,
                timeline.wf(),
                realized == total(ev.subrange(0, k as int), Measure::Realized),
                funding == total(ev.subrange(0, k as int), Measure::Funding),
                fees == total(ev.subrange(0, k as int), Measure::Fees),
                -(k * AMOUNT_LIMIT) <= realized <= k * AMOUNT_LIMIT,
                -(k * AMOUNT_LIMIT) <= funding <= k * AMOUNT_LIMIT,
                -(k * AMOUNT_LIMIT) <= fees <= k * AMOUNT_LIMIT,
                entries_for(entries@, ev.subrange(0, k as int)),
                forall|i: int| 0 <= i < entries@.len() ==> entry_bounded(#[trigger] entries@[i], k as int),
                entries_total(entries@, Measure::Realized) == realized,
                entries_total(entries@, Measure::Funding) == funding,
                entries_total(entries@, Measure::Fees) == fees,
            decreases ev.len() - k,
        {
            let ghost prefix = ev.subrange(0, k as int);
            let ghost next = ev.subrange(0, k + 1);
            assert(next.drop_last() =~= prefix);
            assert(next.last() == ev[k as int]);
            assert(ev[k as int].within_limits());
            assert((k as int) < 0x1_0000_0000_0000_0000);
            let ghost before = entries@;
            match contribution(&timeline.events[k]) {
                Some(c) => {
                    realized = realized + c.realized;
                    funding = funding + c.funding;
                    fees = fees + c.fees;
                    let idx = find_or_add(&mut entries, c.coin);
                    let ghost mid = entries@;
                    let cur = &entries[idx];
                    let r_units = cur.realized_pnl.units + c.realized;
                    let f_units = cur.funding_pnl.units + c.funding;
                    let fee_units = cur.fees.units + c.fees;
                    let updated = AssetPnl {
                        coin: cur.coin.clone(),
                        realized_pnl: Decimal { units: r_units },
                        funding_pnl: Decimal { units: f_units },
                        fees: Decimal { units: fee_units },
                        net_pnl: Decimal { units: r_units + f_units - fee_units },
                        trade_count: cur.trade_count + c.trades,
                    };
                    let ghost upd = updated;
                    entries.set(idx, updated);
                    proof {
                        self.lemma_step(before, mid, entries@, idx as int, upd, prefix, next, k as int);
                    }
                },
                None => {
                    assert forall|i: int| 0 <= i < entries@.len() implies entry_tracks(
                        #[trigger] entries@[i],
                        next,
                    ) by {
                        assert(entry_tracks(entries@[i], prefix));
                    }
                    assert forall|i: int| #![trigger entries@[i]] 0 <= i < entries@.len() implies coin_seen(
                        next,
                        entries@[i].coin@,
                    ) by {
                        assert(coin_seen(prefix, entries@[i].coin@));
                        let w = choose|w: int| 0 <= w < prefix.len() && asset_of(#[trigger] prefix[w]) == Some(entries@[i].coin@);
                        assert(next[w] == prefix[w]);
                    }
                    assert forall|w: int|
                        0 <= w < next.len() && asset_of(#[trigger] next[w]) is Some implies exists|i: int|
                            0 <= i < entries@.len() && Some(#[trigger] entries@[i].coin@) == asset_of(next[w]) by {
                        assert(next[w] == prefix[w]);
                    }
                    assert forall|i: int| 0 <= i < entries@.len() implies entry_bounded(
                        #[trigger] entries@[i],
                        k + 1,
                    ) by {
                        assert(entry_bounded(entries@[i], k as int));
                    }
                },
            }
            k = k + 1;
        }
        assert(ev.subrange(0, ev.len() as int) =~= ev);
        let total_pnl: i128 = realized + unrealized_pnl.units;
        let net_pnl: i128 = total_pnl + funding - fees;
        let period_start = match timeline.from_timestamp {
            Some(t) => t,
            None => now,
        };
        let period_end = match timeline.to_timestamp {
            Some(t) => t,
            None => now,
        };
        PnlSummary {
            wallet: wallet.to_owned(),
            period_start,
            period_end,
            realized_pnl: Decimal { units: realized },
            unrealized_pnl,
            total_pnl: Decimal { units: total_pnl },
            funding_pnl: Decimal { units: funding },
            trading_fees: Decimal { units: fees },
            net_pnl: Decimal { units: net_pnl },
            by_asset: entries,
        }
    }

    /// One fill or funding event folded into the per-coin entries.
    proof fn lemma_step(
        &self,
        before: Seq<AssetPnl>,
        mid: Seq<AssetPnl>,
        after: Seq<AssetPnl>,
        idx: int,
        upd: AssetPnl,
        prefix: Seq<TimelineEvent>,
        next: Seq<TimelineEvent>,
        k: int,
    )
        requires
            0 <= k,
            prefix.len() == k,
            next.len() == k + 1,
            next.drop_last() == prefix,
            asset_of(next[k]) == Some(upd.coin@),
            entries_for(before, prefix),
            forall|i: int| 0 <= i < before.len() ==> entry_bounded(#[trigger] before[i], k),
            0 <= idx < mid.len(),
            mid[idx].coin@ == upd.coin@,
            (idx < before.len() && mid == before) || (idx == before.len() && (forall|i: int|
                0 <= i < before.len() ==> before[i].coin@ != upd.coin@) && mid == before.push(
                AssetPnl {
                    coin: mid[idx].coin,
                    realized_pnl: Decimal { units: 0 },
                    funding_pnl: Decimal { units: 0 },
                    fees: Decimal { units: 0 },
                    net_pnl: Decimal { units: 0 },
                    trade_count: 0,
                },
            )),
            upd.realized_pnl.units == mid[idx].realized_pnl.units + measure(next[k], Measure::Realized),
            upd.funding_pnl.units == mid[idx].funding_pnl.units + measure(next[k], Measure::Funding),
            upd.fees.units == mid[idx].fees.units + measure(next[k], Measure::Fees),
            upd.trade_count == mid[idx].trade_count + measure(next[k], Measure::Trades),
            upd.net_pnl.units == upd.realized_pnl.units + upd.funding_pnl.units - upd.fees.units,
            -AMOUNT_LIMIT <= measure(next[k], Measure::Realized) <= AMOUNT_LIMIT,
            -AMOUNT_LIMIT <= measure(next[k], Measure::Funding) <= AMOUNT_LIMIT,
            -AMOUNT_LIMIT <= measure(next[k], Measure::Fees) <= AMOUNT_LIMIT,
            measure(next[k], Measure::Trades) <= 1,
            after == mid.update(idx, upd),
        ensures
            entries_for(after, next),
            forall|i: int| 0 <= i < after.len() ==> entry_bounded(#[trigger] after[i], k + 1),
            entries_total(after, Measure::Realized) == entries_total(before, Measure::Realized)
                + measure(next[k], Measure::Realized),
            entries_total(after, Measure::Funding) == entries_total(before, Measure::Funding)
                + measure(next[k], Measure::Funding),
            entries_total(after, Measure::Fees) == entries_total(before, Measure::Fees) + measure(
                next[k],
                Measure::Fees,
            ),
    {
        let c = upd.coin@;
        assert(next.last() == next[k]);
        assert forall|w: int| 0 <= w < k implies #[trigger] next[w] == prefix[w] by {}
        if idx == before.len() {
            assert forall|w: int| 0 <= w < prefix.len() implies asset_of(#[trigger] prefix[w]) != Some(c) by {
                if asset_of(prefix[w]) == Some(c) {
                    let i = choose|i: int| 0 <= i < before.len() && Some(#[trigger] before[i].coin@) == asset_of(prefix[w]);
                }
            }
            lemma_asset_total_absent(prefix, c, Measure::Realized);
            lemma_asset_total_absent(prefix, c, Measure::Funding);
            lemma_asset_total_absent(prefix, c, Measure::Fees);
            lemma_asset_total_absent(prefix, c, Measure::Trades);
            lemma_entries_total_push(before, mid[idx], Measure::Realized);
            lemma_entries_total_push(before, mid[idx], Measure::Funding);
            lemma_entries_total_push(before, mid[idx], Measure::Fees);
        } else {
            assert(entry_tracks(before[idx], prefix));
            assert(entry_bounded(before[idx], k));
        }
        lemma_entries_total_update(mid, idx, upd, Measure::Realized);
        lemma_entries_total_update(mid, idx, upd, Measure::Funding);
        lemma_entries_total_update(mid, idx, upd, Measure::Fees);
        assert forall|i: int, j: int| 0 <= i < j < after.len() implies after[i].coin@ != after[j].coin@ by {
            if j == idx {
                assert(after[i] == before[i]);
            } else if i == idx {
                assert(after[j] == before[j]);
            } else {
                assert(after[i] == before[i] && after[j] == before[j]);
            }
        }
        assert forall|i: int| #![trigger after[i]] 0 <= i < after.len() implies coin_seen(next, after[i].coin@) by {
            if i == idx {
                assert(asset_of(next[k]) == Some(after[i].coin@));
            } else {
                assert(after[i] == before[i]);
                assert(coin_seen(prefix, before[i].coin@));
                let w = choose|w: int| 0 <= w < prefix.len() && asset_of(#[trigger] prefix[w]) == Some(before[i].coin@);
                assert(next[w] == prefix[w]);
            }
        }
        assert forall|w: int|
            0 <= w < next.len() && asset_of(#[trigger] next[w]) is Some implies exists|i: int|
                0 <= i < after.len() && Some(#[trigger] after[i].coin@) == asset_of(next[w]) by {
            if w == k {
                assert(Some(after[idx].coin@) == asset_of(next[w]));
            } else {
                assert(next[w] == prefix[w]);
                let i = choose|i: int| 0 <= i < before.len() && Some(#[trigger] before[i].coin@) == asset_of(prefix[w]);
                if i == idx {
                    assert(Some(after[idx].coin@) == asset_of(next[w]));
                } else {
                    assert(after[i] == before[i]);
                    assert(Some(after[i].coin@) == asset_of(next[w]));
                }
            }
        }
        assert forall|i: int| 0 <= i < after.len() implies #[trigger] entry_tracks(after[i], next) && entry_bounded(after[i], k + 1) by {
            if i != idx {
                assert(after[i] == before[i]);
                assert(entry_tracks(before[i], prefix));
                assert(entry_bounded(before[i], k));
                assert(before[i].coin@ != c);
            }
        }
    }
}

/// An account snapshot: the unrealized PnL field of each asset position, as
/// the exchange reports it (`None` where it is absent or not a string).
pub struct AccountState {
    pub asset_positions: Vec<Option<String>>,
}

/// The units of a reported figure, zero where it does not read as an amount.
pub open spec fn reported_units(f: Option<String>) -> int {
    match field_units(f) {
        Some(u) => u,
        None => 0,
    }
}

/// The sum of the reported unrealized PnL of all positions.
pub open spec fn unrealized_total(s: Seq<Option<String>>) -> int
    decreases s.len(),
{
    if s.len() == 0 {
        0
    } else {
        unrealized_total(s.drop_last()) + reported_units(s.last())
    }
}

/// Every running sum of the reported unrealized PnL fits in an `i128`.
pub open spec fn running_sums_fit(s: Seq<Option<String>>) -> bool
    decreases s.len(),
{
    s.len() == 0 || (running_sums_fit(s.drop_last()) && fits_i128(unrealized_total(s)))
}

proof fn lemma_running_sums_prefix(s: Seq<Option<String>>, i: int)
    requires
        0 <= i <= s.len(),
        running_sums_fit(s),
    ensures
        running_sums_fit(s.subrange(0, i)),
    decreases s.len(),
{
    if i < s.len() {
        assert(s.drop_last().subrange(0, i) =~= s.subrange(0, i));
        lemma_running_sums_prefix(s.drop_last(), i);
    } else {
        assert(s.subrange(0, i) =~= s);
    }
}

/// The PnL of one calendar day, and of all days up to it.
#[derive(Debug)]
pub struct DailyPnl {
    pub date: String,
    pub pnl: Decimal,
    pub cumulative_pnl: Decimal,
}

/// What an event adds to the PnL of its day.
pub open spec fn day_contribution(e: TimelineEvent) -> int {
    match e {
        TimelineEvent::Fill { fee, realized_pnl, .. } => match realized_pnl {
            Some(p) => p.units - fee.units,
            None => 0 - fee.units,
        },
        TimelineEvent::Funding { amount, .. } => amount.units as int,
        TimelineEvent::Liquidation { loss, .. } => 0 - loss.units,
        _ => 0,
    }
}

/// The UTC calendar date of an event.
pub open spec fn event_date(e: TimelineEvent) -> Seq<char> {
    utc_date_of(e.time())
}

/// The PnL of the events of `s` that fall on date `d`.
pub open spec fn date_total(s: Seq<TimelineEvent>, d: Seq<char>) -> int
    decreases s.len(),
{
    if s.len() == 0 {
        0
    } else {
        date_total(s.drop_last(), d) + if event_date(s.last()) == d {
            day_contribution(s.last())
        } else {
            0
        }
    }
}

/// Some event of `s` falls on date `d`.
pub open spec fn date_seen(s: Seq<TimelineEvent>, d: Seq<char>) -> bool {
    exists|k: int| 0 <= k < s.len() && event_date(#[trigger] s[k]) == d
}

/// Lexicographic order of texts, by character code.
pub open spec fn text_lt(a: Seq<char>, b: Seq<char>) -> bool
    decreases a.len(),
{
    if a.len() == 0 {
        b.len() > 0
    } else if b.len() == 0 {
        false
    } else if a[0] != b[0] {
        (a[0] as int) < (b[0] as int)
    } else {
        text_lt(a.drop_first(), b.drop_first())
    }
}

/// The sum of the daily PnL of the entries.
pub open spec fn pnl_sum(v: Seq<DailyPnl>) -> int
    decreases v.len(),
{
    if v.len() == 0 {
        0
    } else {
        pnl_sum(v.drop_last()) + v.last().pnl.units
    }
}

/// The sum of the magnitudes of the daily PnL of the entries.
pub open spec fn magnitude_sum(v: Seq<DailyPnl>) -> int
    decreases v.len(),
{
    if v.len() == 0 {
        0
    } else {
        magnitude_sum(v.drop_last()) + if v.last().pnl.units < 0 {
            0 - v.last().pnl.units
        } else {
            v.last().pnl.units as int
        }
    }
}

pub open spec fn magnitude(x: int) -> int {
    if x < 0 {
        -x
    } else {
        x
    }
}

proof fn lemma_pnl_sum_same(v: Seq<DailyPnl>, b: Seq<DailyPnl>)
    requires
        v.len() == b.len(),
        forall|j: int| 0 <= j < v.len() ==> (#[trigger] v[j]).pnl.units == b[j].pnl.units,
    ensures
        pnl_sum(v) == pnl_sum(b),
    decreases v.len(),
{
    if v.len() > 0 {
        lemma_pnl_sum_same(v.drop_last(), b.drop_last());
    }
}

proof fn lemma_text_lt_irreflexive(a: Seq<char>)
    ensures
        !text_lt(a, a),
    decreases a.len(),
{
    if a.len() > 0 {
        lemma_text_lt_irreflexive(a.drop_first());
    }
}

proof fn lemma_text_lt_total(a: Seq<char>, b: Seq<char>)
    requires
        a != b,
    ensures
        text_lt(a, b) || text_lt(b, a),
    decreases a.len(),
{
    if a.len() > 0 && b.len() > 0 && a[0] == b[0] {
        if a.drop_first() == b.drop_first() {
            assert(a.drop_first().len() == b.drop_first().len());
            assert(a.len() == b.len());
            assert(a =~= b) by {
                assert forall|i: int| 0 <= i < a.len() implies a[i] == b[i] by {
                    if i > 0 {
                        assert(a[i] == a.drop_first()[i - 1]);
                        assert(b[i] == b.drop_first()[i - 1]);
                    }
                }
            }
        }
        lemma_text_lt_total(a.drop_first(), b.drop_first());
    } else if a.len() == 0 && b.len() == 0 {
        assert(a =~= b);
    } else if a.len() > 0 && b.len() > 0 {
        assert((a[0] as int) != (b[0] as int));
    }
}

proof fn lemma_text_lt_transitive(a: Seq<char>, b: Seq<char>, c: Seq<char>)
    requires
        text_lt(a, b),
        text_lt(b, c),
    ensures
        text_lt(a, c),
    decreases a.len(),
{
    if a.len() > 0 && b.len() > 0 && c.len() > 0 {
        if a[0] == b[0] && b[0] == c[0] {
            lemma_text_lt_transitive(a.drop_first(), b.drop_first(), c.drop_first());
        }
    }
}

proof fn lemma_magnitude_sum_update(v: Seq<DailyPnl>, i: int, a: DailyPnl)
    requires
        0 <= i < v.len(),
    ensures
        magnitude_sum(v.update(i, a)) == magnitude_sum(v) - magnitude(v[i].pnl.units as int)
            + magnitude(a.pnl.units as int),
    decreases v.len(),
{
    if i < v.len() - 1 {
        assert(v.update(i, a).drop_last() =~= v.drop_last().update(i, a));
        lemma_magnitude_sum_update(v.drop_last(), i, a);
    } else {
        assert(v.update(i, a).drop_last() =~= v.drop_last());
    }
}

proof fn lemma_magnitude_sum_insert(v: Seq<DailyPnl>, i: int, a: DailyPnl)
    requires
        0 <= i <= v.len(),
    ensures
        magnitude_sum(v.insert(i, a)) == magnitude_sum(v) + magnitude(a.pnl.units as int),
    decreases v.len(),
{
    if i < v.len() {
        assert(v.insert(i, a).drop_last() =~= v.drop_last().insert(i, a));
        lemma_magnitude_sum_insert(v.drop_last(), i, a);
    } else {
        assert(v.insert(i, a).drop_last() =~= v);
    }
}

proof fn lemma_magnitude_sum_prefix(v: Seq<DailyPnl>, i: int)
    requires
        0 <= i <= v.len(),
    ensures
        0 <= magnitude_sum(v.subrange(0, i)) <= magnitude_sum(v),
    decreases v.len(),
{
    if i < v.len() {
        assert(v.drop_last().subrange(0, i) =~= v.subrange(0, i));
        lemma_magnitude_sum_prefix(v.drop_last(), i);
    } else {
        assert(v.subrange(0, i) =~= v);
        lemma_magnitude_nonneg(v);
    }
}

proof fn lemma_magnitude_bounds_entry(v: Seq<DailyPnl>, i: int)
    requires
        0 <= i < v.len(),
    ensures
        magnitude(v[i].pnl.units as int) <= magnitude_sum(v),
    decreases v.len(),
{
    lemma_magnitude_nonneg(v.drop_last());
    if i < v.len() - 1 {
        lemma_magnitude_bounds_entry(v.drop_last(), i);
    }
}

proof fn lemma_magnitude_nonneg(v: Seq<DailyPnl>)
    ensures
        magnitude_sum(v) >= 0,
    decreases v.len(),
{
    if v.len() > 0 {
        lemma_magnitude_nonneg(v.drop_last());
    }
}

proof fn lemma_date_total_absent(s: Seq<TimelineEvent>, d: Seq<char>)
    requires
        forall|k: int| 0 <= k < s.len() ==> event_date(#[trigger] s[k]) != d,
    ensures
        date_total(s, d) == 0,
    decreases s.len(),
{
    if s.len() > 0 {
        lemma_date_total_absent(s.drop_last(), d);
    }
}

/// Some entry is for date `d`.
pub open spec fn date_listed(v: Seq<DailyPnl>, d: Seq<char>) -> bool {
    exists|i: int| #![trigger v[i]] 0 <= i < v.len() && v[i].date@ == d
}

/// The daily entries are one for each date that an event of `s` falls on, in
/// ascending date order, each with the PnL of its date.
#[verifier::opaque]
pub open spec fn days_for(v: Seq<DailyPnl>, s: Seq<TimelineEvent>) -> bool {
    &&& forall|i: int, j: int| 0 <= i < j < v.len() ==> text_lt(v[i].date@, v[j].date@)
    &&& forall|i: int| #![trigger v[i]] 0 <= i < v.len() ==> date_seen(s, v[i].date@)
    &&& forall|k: int| #![trigger s[k]] 0 <= k < s.len() ==> date_listed(v, event_date(s[k]))
    &&& forall|i: int| #![trigger v[i]] 0 <= i < v.len() ==> v[i].pnl.units == date_total(s, v[i].date@)
}

proof fn lemma_text_lt_distinct(a: Seq<char>, b: Seq<char>)
    requires
        text_lt(a, b),
    ensures
        a != b,
{
    lemma_text_lt_irreflexive(a);
}

/// Adding event `next[k]` to the existing entry `p` of its date.
proof fn lemma_day_update(
    b: Seq<DailyPnl>,
    n: Seq<DailyPnl>,
    p: int,
    x: DailyPnl,
    prefix: Seq<TimelineEvent>,
    next: Seq<TimelineEvent>,
    k: int,
)
    requires
        0 <= k,
        prefix.len() == k,
        next.len() == k + 1,
        next.drop_last() == prefix,
        days_for(b, prefix),
        0 <= p < b.len(),
        b[p].date@ == event_date(next[k]),
        x.date@ == b[p].date@,
        x.pnl.units == b[p].pnl.units + day_contribution(next[k]),
        n == b.update(p, x),
    ensures
        days_for(n, next),
{
    reveal(days_for);
    let d = x.date@;
    assert(next.last() == next[k]);
    assert forall|w: int| 0 <= w < k implies #[trigger] next[w] == prefix[w] by {}
    assert forall|i: int, j: int| 0 <= i < j < n.len() implies text_lt(n[i].date@, n[j].date@) by {
        assert(text_lt(b[i].date@, b[j].date@));
    }
    assert forall|i: int| #![trigger n[i]] 0 <= i < n.len() implies date_seen(next, n[i].date@) by {
        if i == p {
            assert(event_date(next[k]) == n[i].date@);
        } else {
            assert(n[i] == b[i]);
            assert(date_seen(prefix, b[i].date@));
            let w = choose|w: int| 0 <= w < prefix.len() && event_date(#[trigger] prefix[w]) == b[i].date@;
            assert(next[w] == prefix[w]);
        }
    }
    assert forall|w: int| #![trigger next[w]] 0 <= w < next.len() implies date_listed(n, event_date(next[w])) by {
        if w == k {
            assert(n[p].date@ == event_date(next[w]));
        } else {
            assert(next[w] == prefix[w]);
            let i = choose|i: int| #![trigger b[i]] 0 <= i < b.len() && b[i].date@ == event_date(prefix[w]);
            assert(n[i].date@ == b[i].date@);
        }
    }
    assert forall|i: int| #![trigger n[i]] 0 <= i < n.len() implies n[i].pnl.units == date_total(
        next,
        n[i].date@,
    ) by {
        assert(b[i].pnl.units == date_total(prefix, b[i].date@));
        if i != p {
            assert(n[i] == b[i]);
            if i < p {
                assert(text_lt(b[i].date@, b[p].date@));
                lemma_text_lt_distinct(b[i].date@, b[p].date@);
            } else {
                assert(text_lt(b[p].date@, b[i].date@));
                lemma_text_lt_distinct(b[p].date@, b[i].date@);
            }
        }
    }
}

/// Adding event `next[k]` as the first entry of its date, at position `p`.
proof fn lemma_day_insert(
    b: Seq<DailyPnl>,
    n: Seq<DailyPnl>,
    p: int,
    x: DailyPnl,
    prefix: Seq<TimelineEvent>,
    next: Seq<TimelineEvent>,
    k: int,
)
    requires
        0 <= k,
        prefix.len() == k,
        next.len() == k + 1,
        next.drop_last() == prefix,
        days_for(b, prefix),
        0 <= p <= b.len(),
        x.date@ == event_date(next[k]),
        x.pnl.units == day_contribution(next[k]),
        forall|i: int| 0 <= i < p ==> text_lt(#[trigger] b[i].date@, x.date@),
        p < b.len() ==> !text_lt(b[p].date@, x.date@) && b[p].date@ != x.date@,
        n == b.insert(p, x),
    ensures
        days_for(n, next),
{
    reveal(days_for);
    let d = x.date@;
    assert(next.last() == next[k]);
    assert forall|w: int| 0 <= w < k implies #[trigger] next[w] == prefix[w] by {}
    assert forall|i: int| p <= i < b.len() implies text_lt(d, #[trigger] b[i].date@) by {
        lemma_text_lt_total(b[p].date@, d);
        if i > p {
            assert(text_lt(b[p].date@, b[i].date@));
            lemma_text_lt_transitive(d, b[p].date@, b[i].date@);
        }
    }
    assert forall|i: int| 0 <= i < b.len() implies #[trigger] b[i].date@ != d by {
        if i < p {
            lemma_text_lt_distinct(b[i].date@, d);
        } else {
            lemma_text_lt_distinct(d, b[i].date@);
        }
    }
    assert forall|w: int| 0 <= w < prefix.len() implies event_date(#[trigger] prefix[w]) != d by {
        let i = choose|i: int| #![trigger b[i]] 0 <= i < b.len() && b[i].date@ == event_date(prefix[w]);
        assert(b[i].date@ != d);
    }
    lemma_date_total_absent(prefix, d);
    assert forall|i: int, j: int| 0 <= i < j < n.len() implies text_lt(n[i].date@, n[j].date@) by {
        if j < p {
            assert(n[i] == b[i] && n[j] == b[j]);
        } else if j == p {
            assert(n[i] == b[i]);
        } else if i < p {
            assert(n[i] == b[i] && n[j] == b[j - 1]);
            lemma_text_lt_transitive(b[i].date@, d, b[j - 1].date@);
        } else if i == p {
            assert(n[j] == b[j - 1]);
        } else {
            assert(n[i] == b[i - 1] && n[j] == b[j - 1]);
        }
    }
    assert forall|i: int| #![trigger n[i]] 0 <= i < n.len() implies date_seen(next, n[i].date@) by {
        if i == p {
            assert(event_date(next[k]) == n[i].date@);
        } else {
            let bi = if i < p {
                i
            } else {
                i - 1
            };
            assert(n[i] == b[bi]);
            assert(date_seen(prefix, b[bi].date@));
            let w = choose|w: int| 0 <= w < prefix.len() && event_date(#[trigger] prefix[w]) == b[bi].date@;
            assert(next[w] == prefix[w]);
        }
    }
    assert forall|w: int| #![trigger next[w]] 0 <= w < next.len() implies date_listed(n, event_date(next[w])) by {
        if w == k {
            assert(n[p].date@ == event_date(next[w]));
        } else {
            assert(next[w] == prefix[w]);
            let i = choose|i: int| #![trigger b[i]] 0 <= i < b.len() && b[i].date@ == event_date(prefix[w]);
            if i < p {
                assert(n[i] == b[i]);
            } else {
                assert(n[i + 1] == b[i]);
            }
        }
    }
    assert forall|i: int| #![trigger n[i]] 0 <= i < n.len() implies n[i].pnl.units == date_total(
        next,
        n[i].date@,
    ) by {
        if i != p {
            let bi = if i < p {
                i
            } else {
                i - 1
            };
            assert(n[i] == b[bi]);
            assert(b[bi].pnl.units == date_total(prefix, b[bi].date@));
            assert(b[bi].date@ != d);
        }
    }
}

/// Entries with the same dates and daily PnL describe the same days.
proof fn lemma_days_for_same(v: Seq<DailyPnl>, b: Seq<DailyPnl>, s: Seq<TimelineEvent>)
    requires
        days_for(b, s),
        v.len() == b.len(),
        forall|j: int|
            0 <= j < v.len() ==> (#[trigger] v[j]).date@ == b[j].date@ && v[j].pnl.units == b[j].pnl.units,
    ensures
        days_for(v, s),
{
    reveal(days_for);
    assert forall|i: int, j: int| 0 <= i < j < v.len() implies text_lt(v[i].date@, v[j].date@) by {
        assert(v[i].date@ == b[i].date@ && v[j].date@ == b[j].date@);
    }
    assert forall|i: int| #![trigger v[i]] 0 <= i < v.len() implies date_seen(s, v[i].date@) by {
        assert(v[i].date@ == b[i].date@);
        assert(date_seen(s, b[i].date@));
    }
    assert forall|k: int| #![trigger s[k]] 0 <= k < s.len() implies date_listed(v, event_date(s[k])) by {
        assert(date_listed(b, event_date(s[k])));
        let i = choose|i: int| #![trigger b[i]] 0 <= i < b.len() && b[i].date@ == event_date(s[k]);
        assert(v[i].date@ == b[i].date@);
    }
    assert forall|i: int| #![trigger v[i]] 0 <= i < v.len() implies v[i].pnl.units == date_total(
        s,
        v[i].date@,
    ) by {
        assert(v[i].date@ == b[i].date@ && v[i].pnl.units == b[i].pnl.units);
        assert(b[i].pnl.units == date_total(s, b[i].date@));
    }
}

/// What an event adds to the PnL of its day.
fn day_amount(e: &TimelineEvent) -> (r: i128)
    requires
        e.within_limits(),
    ensures
        r == day_contribution(*e),
        -2 * AMOUNT_LIMIT <= r <= 2 * AMOUNT_LIMIT,
{
    match e {
        TimelineEvent::Fill { fee, realized_pnl, .. } => match realized_pnl {
            Some(p) => p.units - fee.units,
            None => 0 - fee.units,
        },
        TimelineEvent::Funding { amount, .. } => amount.units,
        TimelineEvent::Liquidation { loss, .. } => 0 - loss.units,
        _ => 0,
    }
}

/// Whether text `a` comes before text `b`.
fn text_less(a: &str, b: &str) -> (r: bool)
    ensures
        r == text_lt(a@, b@),
{
    let la = a.unicode_len();
    let lb = b.unicode_len();
    let mut i: usize = 0;
    assert(a@.subrange(0, la as int) =~= a@);
    assert(b@.subrange(0, lb as int) =~= b@);
    while i < la && i < lb
        invariant
            i <= la,
            i <= lb,
            la == a@.len(),
            lb == b@.len(),
            text_lt(a@, b@) == text_lt(a@.subrange(i as int, la as int), b@.subrange(i as int, lb as int)),
        decreases la - i,
    {
        let ca = a.get_char(i);
        let cb = b.get_char(i);
        let ghost ra = a@.subrange(i as int, la as int);
        let ghost rb = b@.subrange(i as int, lb as int);
        assert(ra[0] == ca && rb[0] == cb);
        if ca != cb {
            return (ca as u32) < (cb as u32);
        }
        assert(ra.drop_first() =~= a@.subrange(i + 1, la as int));
        assert(rb.drop_first() =~= b@.subrange(i + 1, lb as int));
        i = i + 1;
    }
    la - i == 0 && lb - i > 0
}

impl PnlCalculator {
    /// The PnL summary of a timeline; an empty timeline's period is the
    /// current instant.
    pub fn calculate_summary(&self, wallet: &str, timeline: &Timeline, unrealized_pnl: Decimal) -> (r:
        PnlSummary)
        requires
            timeline.wf(),
            -SUM_LIMIT <= unrealized_pnl.units <= SUM_LIMIT,
        ensures
            r.wallet@ == wallet@,
            timeline.from_timestamp matches Some(t) ==> r.period_start == t,
            timeline.to_timestamp matches Some(t) ==> r.period_end == t,
            timeline.from_timestamp is None && timeline.to_timestamp is None ==> r.period_start
                == r.period_end,
            r.realized_pnl.units == total(timeline.events@, Measure::Realized),
            r.funding_pnl.units == total(timeline.events@, Measure::Funding),
            r.trading_fees.units == total(timeline.events@, Measure::Fees),
            r.unrealized_pnl == unrealized_pnl,
            r.total_pnl.units == r.realized_pnl.units + unrealized_pnl.units,
            r.net_pnl.units == r.total_pnl.units + r.funding_pnl.units - r.trading_fees.units,
            entries_for(r.by_asset@, timeline.events@),
            entries_total(r.by_asset@, Measure::Realized) == r.realized_pnl.units,
            entries_total(r.by_asset@, Measure::Funding) == r.funding_pnl.units,
            entries_total(r.by_asset@, Measure::Fees) == r.trading_fees.units,
    {
        let now = now_millis();
        self.summarize(wallet, timeline, unrealized_pnl, now)
    }

    /// The sum of the unrealized PnL that the snapshot reports for its
    /// positions; a figure that does not read as an amount counts as zero.
    /// `None` where a running sum, taken over the positions in order, leaves
    /// the `i128` range of units.
    pub fn calculate_unrealized_from_state(&self, state: &AccountState) -> (r: Option<Decimal>)
        ensures
            r is Some <==> running_sums_fit(state.asset_positions@),
            r matches Some(d) ==> d.units == unrealized_total(state.asset_positions@),
    {
        let ghost s = state.asset_positions@;
        let mut sum: i128 = 0;
        let mut k: usize = 0;
        assert(s.subrange(0, 0) =~= Seq::<Option<String>>::empty());
        while k < state.asset_positions.len()
            invariant
                k <= s.len(),
                s == state.asset_positions@,
                sum == unrealized_total(s.subrange(0, k as int)),
                running_sums_fit(s.subrange(0, k as int)),
            decreases s.len() - k,
        {
            assert(s.subrange(0, k + 1).drop_last() =~= s.subrange(0, k as int));
            let add: i128 = match read_amount(&state.asset_positions[k]) {
                Some(d) => d.units,
                None => 0,
            };
            match sum.checked_add(add) {
                Some(n) => {
                    sum = n;
                },
                None => {
                    proof {
                        assert(!fits_i128(unrealized_total(s.subrange(0, k + 1))));
                        if running_sums_fit(s) {
                            lemma_running_sums_prefix(s, k + 1);
                        }
                    }
                    return None;
                },
            }
            k = k + 1;
        }
        assert(s.subrange(0, s.len() as int) =~= s);
        Some(Decimal { units: sum })
    }
}

/// Adds `amount` to the entry of `date`, or inserts a new entry for it where
/// the ascending date order puts it.
fn add_to_day(days: &mut Vec<DailyPnl>, date: String, amount: i128) -> (p: usize)
    requires
        -2 * AMOUNT_LIMIT <= amount <= 2 * AMOUNT_LIMIT,
        magnitude_sum(old(days)@) <= 0x2000_0000_0000_0000_0000_0000_0000_0000,
    ensures
        p <= old(days)@.len(),
        forall|i: int| 0 <= i < p ==> text_lt(#[trigger] old(days)@[i].date@, date@),
        (p < old(days)@.len() && old(days)@[p as int].date@ == date@ && final(days)@ == old(days)@.update(
            p as int,
            DailyPnl {
                date: old(days)@[p as int].date,
                pnl: Decimal { units: (old(days)@[p as int].pnl.units + amount) as i128 },
                cumulative_pnl: Decimal { units: 0 },
            },
        )) || ((p < old(days)@.len() ==> !text_lt(old(days)@[p as int].date@, date@)
            && old(days)@[p as int].date@ != date@) && final(days)@ == old(days)@.insert(
            p as int,
            DailyPnl { date, pnl: Decimal { units: amount }, cumulative_pnl: Decimal { units: 0 } },
        )),
{
    let mut p: usize = 0;
    while p < days.len() && text_less(days[p].date.as_str(), date.as_str())
        invariant
            p <= days@.len(),
            days@ == old(days)@,
            forall|i: int| 0 <= i < p ==> text_lt(#[trigger] days@[i].date@, date@),
        decreases days@.len() - p,
    {
        p = p + 1;
    }
    if p < days.len() && days[p].date == date {
        proof {
            lemma_magnitude_bounds_entry(days@, p as int);
        }
        let units = days[p].pnl.units + amount;
        let updated = DailyPnl {
            date: days[p].date.clone(),
            pnl: Decimal { units },
            cumulative_pnl: Decimal::zero(),
        };
        days.set(p, updated);
    } else {
        days.insert(p, DailyPnl { date, pnl: Decimal { units: amount }, cumulative_pnl: Decimal::zero() });
    }
    p
}

/// Fills in the running total of the daily PnL.
fn fill_cumulative(days: &mut Vec<DailyPnl>)
    requires
        magnitude_sum(old(days)@) <= 0x2000_0000_0000_0000_0000_0000_0000_0000,
    ensures
        final(days)@.len() == old(days)@.len(),
        forall|j: int|
            0 <= j < old(days)@.len() ==> (#[trigger] final(days)@[j]).date@ == old(days)@[j].date@
                && final(days)@[j].pnl.units == old(days)@[j].pnl.units && final(days)@[j].cumulative_pnl.units
                == pnl_sum(old(days)@.subrange(0, j + 1)),
{
    let ghost b = days@;
    let mut cumulative: i128 = 0;
    let mut i: usize = 0;
    assert(b.subrange(0, 0) =~= Seq::<DailyPnl>::empty());
    while i < days.len()
        invariant
            i <= b.len(),
            b == old(days)@,
            days@.len() == b.len(),
            forall|j: int|
                0 <= j < b.len() ==> (#[trigger] days@[j]).date == b[j].date && days@[j].pnl == b[j].pnl,
            forall|j: int|
                0 <= j < i ==> (#[trigger] days@[j]).cumulative_pnl.units == pnl_sum(b.subrange(0, j + 1)),
            cumulative == pnl_sum(b.subrange(0, i as int)),
            -magnitude_sum(b.subrange(0, i as int)) <= cumulative <= magnitude_sum(b.subrange(0, i as int)),
            magnitude_sum(b) <= 0x2000_0000_0000_0000_0000_0000_0000_0000,
        decreases b.len() - i,
    {
        assert(b.subrange(0, i + 1).drop_last() =~= b.subrange(0, i as int));
        assert(b.subrange(0, i + 1).last() == b[i as int]);
        proof {
            lemma_magnitude_sum_prefix(b, i + 1);
        }
        cumulative = cumulative + days[i].pnl.units;
        let updated = DailyPnl {
            date: days[i].date.clone(),
            pnl: days[i].pnl,
            cumulative_pnl: Decimal { units: cumulative },
        };
        days.set(i, updated);
        i = i + 1;
    }
}

impl PnlCalculator {
    /// The PnL of each UTC calendar date that has events, in ascending date
    /// order, with the running total up to each date.
    pub fn calculate_daily(&self, timeline: &Timeline) -> (r: Vec<DailyPnl>)
        requires
            timeline.wf(),
        ensures
            days_for(r@, timeline.events@),
            forall|i: int|
                0 <= i < r@.len() ==> (#[trigger] r@[i]).cumulative_pnl.units == pnl_sum(
                    r@.subrange(0, i + 1),
                ),
            r@.len() > 0 ==> r@[0].cumulative_pnl.units == r@[0].pnl.units,
            forall|i: int|
                0 < i < r@.len() ==> (#[trigger] r@[i]).cumulative_pnl.units == r@[i
                    - 1].cumulative_pnl.units + r@[i].pnl.units,
            r@.len() > 0 ==> r@.last().cumulative_pnl.units == pnl_sum(r@),
    {
        let ghost ev = timeline.events@;
        let mut days: Vec<DailyPnl> = Vec::new();
        let mut k: usize = 0;
        assert(ev.subrange(0, 0) =~= Seq::<TimelineEvent>::empty());
        assert(days_for(days@, ev.subrange(0, 0))) by {
            reveal(days_for);
        }
        while k < timeline.events.len()
            invariant
                k <= ev.len(),
                ev == timeline.events@,
                timeline.wf(),
                days_for(days@, ev.subrange(0, k as int)),
                0 <= magnitude_sum(days@) <= k * (2 * AMOUNT_LIMIT),
                (k as int) <= 0x1_0000_0000_0000_0000,
            decreases ev.len() - k,
        {
            let ghost prefix = ev.subrange(0, k as int);
            let ghost next = ev.subrange(0, k + 1);
            assert(next.drop_last() =~= prefix);
            assert(next[k as int] == ev[k as int]);
            assert(ev[k as int].within_limits());
            assert((k as int) < 0x1_0000_0000_0000_0000);
            let ghost before = days@;
            assert(magnitude_sum(before) <= 0x2000_0000_0000_0000_0000_0000_0000_0000) by (nonlinear_arith)
                requires
                    magnitude_sum(before) <= k * (2 * AMOUNT_LIMIT),
                    (k as int) <= 0x1_0000_0000_0000_0000,
            ;
            let event = &timeline.events[k];
            let date = utc_date(event.timestamp());
            let amount = day_amount(event);
            let ghost d = date;
            let p = add_to_day(&mut days, date, amount);
            proof {
                lemma_magnitude_nonneg(before);
                if p < before.len() && before[p as int].date@ == d@ {
                    let x = days@[p as int];
                    lemma_magnitude_bounds_entry(before, p as int);
                    assert(x.pnl.units == before[p as int].pnl.units + amount);
                    assert(days@ == before.update(p as int, x));
                    lemma_day_update(before, days@, p as int, x, prefix, next, k as int);
                    lemma_magnitude_sum_update(before, p as int, x);
                    assert(magnitude(x.pnl.units as int) <= magnitude(before[p as int].pnl.units as int)
                        + magnitude(amount as int));
                } else {
                    let x = days@[p as int];
                    assert(days@ == before.insert(p as int, x));
                    lemma_day_insert(before, days@, p as int, x, prefix, next, k as int);
                    lemma_magnitude_sum_insert(before, p as int, x);
                }
                lemma_magnitude_nonneg(days@);
                assert(magnitude_sum(days@) <= magnitude_sum(before) + 2 * AMOUNT_LIMIT);
                assert(magnitude_sum(before) + 2 * AMOUNT_LIMIT <= (k + 1) * (2 * AMOUNT_LIMIT)) by (nonlinear_arith)
                    requires
                        magnitude_sum(before) <= k * (2 * AMOUNT_LIMIT),
                ;
            }
            k = k + 1;
        }
        assert(ev.subrange(0, ev.len() as int) =~= ev);
        let ghost b = days@;
        assert(magnitude_sum(b) <= 0x2000_0000_0000_0000_0000_0000_0000_0000) by (nonlinear_arith)
            requires
                magnitude_sum(b) <= k * (2 * AMOUNT_LIMIT),
                (k as int) <= 0x1_0000_0000_0000_0000,
        ;
        fill_cumulative(&mut days);
        proof {
            lemma_days_for_same(days@, b, ev);
            assert(b.subrange(0, b.len() as int) =~= b);
            assert forall|i: int| 0 <= i < b.len() implies (#[trigger] days@[i]).cumulative_pnl.units
                == pnl_sum(days@.subrange(0, i + 1)) by {
                lemma_pnl_sum_same(days@.subrange(0, i + 1), b.subrange(0, i + 1));
            }
            assert(days@.subrange(0, b.len() as int) =~= days@);
            assert forall|i: int| 0 < i < b.len() implies (#[trigger] days@[i]).cumulative_pnl.units
                == days@[i - 1].cumulative_pnl.units + days@[i].pnl.units by {
                assert(b.subrange(0, i + 1).drop_last() =~= b.subrange(0, i));
            }
            if b.len() > 0 {
                assert(days@.subrange(0, 1).drop_last() =~= Seq::<DailyPnl>::empty());
                assert(days@.subrange(0, 1).last() == days@[0]);
                assert(pnl_sum(Seq::<DailyPnl>::empty()) == 0);
            }
        }
        days
    }
}

/// A timeline without events has zero totals, no per-coin entries and no
/// daily entries.
pub proof fn lemma_no_events(
    events: Seq<TimelineEvent>,
    entries: Seq<AssetPnl>,
    days: Seq<DailyPnl>,
)
    requires
        events.len() == 0,
        entries_for(entries, events),
        days_for(days, events),
    ensures
        total(events, Measure::Realized) == 0,
        total(events, Measure::Funding) == 0,
        total(events, Measure::Fees) == 0,
        entries.len() == 0,
        days.len() == 0,
{
    reveal(days_for);
    if entries.len() > 0 {
        assert(coin_seen(events, entries[0].coin@));
    }
    if days.len() > 0 {
        assert(date_seen(events, days[0].date@));
    }
}

/// The sum of a measure over the events of each coin of `cs`.
pub open spec fn coins_total(cs: Seq<Seq<char>>, s: Seq<TimelineEvent>, m: Measure) -> int
    decreases cs.len(),
{
    if cs.len() == 0 {
        0
    } else {
        coins_total(cs.drop_last(), s, m) + asset_total(s, cs.last(), m)
    }
}

/// What event `e` adds to the measure of the coins of `cs`.
pub open spec fn coin_hits(cs: Seq<Seq<char>>, e: TimelineEvent, m: Measure) -> int
    decreases cs.len(),
{
    if cs.len() == 0 {
        0
    } else {
        coin_hits(cs.drop_last(), e, m) + if asset_of(e) == Some(cs.last()) {
            measure(e, m)
        } else {
            0
        }
    }
}

proof fn lemma_entries_as_coins(v: Seq<AssetPnl>, s: Seq<TimelineEvent>, m: Measure)
    requires
        forall|i: int| 0 <= i < v.len() ==> entry_tracks(#[trigger] v[i], s),
    ensures
        entries_total(v, m) == coins_total(v.map_values(|a: AssetPnl| a.coin@), s, m),
    decreases v.len(),
{
    let cs = v.map_values(|a: AssetPnl| a.coin@);
    if v.len() > 0 {
        assert(cs.drop_last() =~= v.drop_last().map_values(|a: AssetPnl| a.coin@));
        assert(entry_tracks(v[v.len() - 1], s));
        lemma_entries_as_coins(v.drop_last(), s, m);
    }
}

proof fn lemma_coins_total_step(cs: Seq<Seq<char>>, s: Seq<TimelineEvent>, m: Measure)
    requires
        s.len() > 0,
    ensures
        coins_total(cs, s, m) == coins_total(cs, s.drop_last(), m) + coin_hits(cs, s.last(), m),
    decreases cs.len(),
{
    if cs.len() > 0 {
        lemma_coins_total_step(cs.drop_last(), s, m);
    }
}

proof fn lemma_coin_hits_absent(cs: Seq<Seq<char>>, e: TimelineEvent, m: Measure)
    requires
        forall|i: int| 0 <= i < cs.len() ==> asset_of(e) != Some(#[trigger] cs[i]),
    ensures
        coin_hits(cs, e, m) == 0,
    decreases cs.len(),
{
    if cs.len() > 0 {
        lemma_coin_hits_absent(cs.drop_last(), e, m);
    }
}

proof fn lemma_coin_hits_once(cs: Seq<Seq<char>>, e: TimelineEvent, m: Measure)
    requires
        forall|i: int, j: int| 0 <= i < j < cs.len() ==> cs[i] != cs[j],
        asset_of(e) is None || exists|i: int| 0 <= i < cs.len() && asset_of(e) == Some(#[trigger] cs[i]),
    ensures
        coin_hits(cs, e, m) == measure(e, m),
    decreases cs.len(),
{
    if asset_of(e) is None {
        lemma_coin_hits_absent(cs, e, m);
    } else {
        let n = cs.len() - 1;
        if asset_of(e) == Some(cs[n]) {
            lemma_coin_hits_absent(cs.drop_last(), e, m);
        } else {
            let i = choose|i: int| 0 <= i < cs.len() && asset_of(e) == Some(#[trigger] cs[i]);
            assert(cs.drop_last()[i] == cs[i]);
            lemma_coin_hits_once(cs.drop_last(), e, m);
        }
    }
}

proof fn lemma_coins_total(cs: Seq<Seq<char>>, s: Seq<TimelineEvent>, m: Measure)
    requires
        forall|i: int, j: int| 0 <= i < j < cs.len() ==> cs[i] != cs[j],
        forall|k: int|
            0 <= k < s.len() && asset_of(#[trigger] s[k]) is Some ==> exists|i: int|
                0 <= i < cs.len() && asset_of(s[k]) == Some(#[trigger] cs[i]),
    ensures
        coins_total(cs, s, m) == total(s, m),
    decreases s.len(),
{
    if s.len() == 0 {
        lemma_coins_total_zero(cs, s, m);
    } else {
        let p = s.drop_last();
        assert forall|k: int| 0 <= k < p.len() && asset_of(#[trigger] p[k]) is Some implies exists|i: int|
            0 <= i < cs.len() && asset_of(p[k]) == Some(#[trigger] cs[i]) by {
            assert(p[k] == s[k]);
        }
        lemma_coins_total(cs, p, m);
        lemma_coins_total_step(cs, s, m);
        assert(s.last() == s[s.len() - 1]);
        lemma_coin_hits_once(cs, s.last(), m);
    }
}

proof fn lemma_coins_total_zero(cs: Seq<Seq<char>>, s: Seq<TimelineEvent>, m: Measure)
    requires
        s.len() == 0,
    ensures
        coins_total(cs, s, m) == 0,
    decreases cs.len(),
{
    if cs.len() > 0 {
        lemma_coins_total_zero(cs.drop_last(), s, m);
    }
}

/// The per-coin entries of any sequence of events add up to its totals: the
/// realized PnL, funding and fees of all coins sum to the global figures, and
/// so do the trade counts.
pub proof fn lemma_per_coin_sums(entries: Seq<AssetPnl>, events: Seq<TimelineEvent>, m: Measure)
    requires
        entries_for(entries, events),
    ensures
        entries_total(entries, m) == total(events, m),
{
    let cs = entries.map_values(|a: AssetPnl| a.coin@);
    lemma_entries_as_coins(entries, events, m);
    assert forall|k: int|
        0 <= k < events.len() && asset_of(#[trigger] events[k]) is Some implies exists|i: int|
            0 <= i < cs.len() && asset_of(events[k]) == Some(#[trigger] cs[i]) by {
        let i = choose|i: int| 0 <= i < entries.len() && Some(#[trigger] entries[i].coin@) == asset_of(events[k]);
        assert(cs[i] == entries[i].coin@);
    }
    lemma_coins_total(cs, events, m);
}

} // verus!
