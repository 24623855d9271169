//! Normalizing raw fill and funding records into typed events, and merging
//! them into one time-ordered timeline.

use crate::clock::{in_range, millis_in_range};
use crate::decimal::{literal_units, within_limit, Decimal};
use vstd::prelude::*;

verus! {

/// A raw trade fill as the exchange reports it. A field that is absent, or
/// that is not of the expected JSON type, is `None`.
pub struct RawFill {
    pub time: Option<i64>,
    pub coin: Option<String>,
    pub side: Option<String>,
    pub sz: Option<String>,
    pub px: Option<String>,
    pub fee: Option<String>,
    pub closed_pnl: Option<String>,
    pub hash: Option<String>,
}

/// A raw funding payment as the exchange reports it. A field that is absent,
/// or that is not of the expected JSON type, is `None`.
pub struct RawFunding {
    pub time: Option<i64>,
    pub coin: Option<String>,
    pub usdc: Option<String>,
    pub funding_rate: Option<String>,
}

/// One entry of an account's history. Timestamps are UTC milliseconds since
/// the Unix epoch.
#[derive(Debug)]
pub enum TimelineEvent {
    Fill {
        timestamp: i64,
        coin: String,
        side: String,
        size: Decimal,
        price: Decimal,
        fee: Decimal,
        realized_pnl: Option<Decimal>,
        tx_hash: Option<String>,
    },
    Funding { timestamp: i64, coin: String, amount: Decimal, funding_rate: Decimal },
    Liquidation { timestamp: i64, coin: String, size: Decimal, price: Decimal, loss: Decimal },
    Deposit { timestamp: i64, amount: Decimal, token: String },
    Withdrawal { timestamp: i64, amount: Decimal, token: String },
}

impl TimelineEvent {
    pub open spec fn time(&self) -> int {
        match self {
            TimelineEvent::Fill { timestamp, .. } => *timestamp as int,
            TimelineEvent::Funding { timestamp, .. } => *timestamp as int,
            TimelineEvent::Liquidation { timestamp, .. } => *timestamp as int,
            TimelineEvent::Deposit { timestamp, .. } => *timestamp as int,
            TimelineEvent::Withdrawal { timestamp, .. } => *timestamp as int,
        }
    }

    /// The amounts that aggregation adds up stay within `AMOUNT_LIMIT`.
    pub open spec fn within_limits(&self) -> bool {
        match self {
            TimelineEvent::Fill { fee, realized_pnl, .. } => within_limit(fee.units as int) && match realized_pnl {
                Some(p) => within_limit(p.units as int),
                None => true,
            },
            TimelineEvent::Funding { amount, .. } => within_limit(amount.units as int),
            TimelineEvent::Liquidation { loss, .. } => within_limit(loss.units as int),
            _ => true,
        }
    }

    /// Whether the amounts that aggregation adds up stay within `AMOUNT_LIMIT`.
    pub fn amounts_within_limits(&self) -> (r: bool)
        ensures
            r == self.within_limits(),
    {
        match self {
            TimelineEvent::Fill { fee, realized_pnl, .. } => fee.is_within_limit() && match realized_pnl {
                Some(p) => p.is_within_limit(),
                None => true,
            },
            TimelineEvent::Funding { amount, .. } => amount.is_within_limit(),
            TimelineEvent::Liquidation { loss, .. } => loss.is_within_limit(),
            _ => true,
        }
    }

    /// The instant of the event.
    pub fn timestamp(&self) -> (r: i64)
        ensures
            r as int == self.time(),
    {
        match self {
            TimelineEvent::Fill { timestamp, .. } => *timestamp,
            TimelineEvent::Funding { timestamp, .. } => *timestamp,
            TimelineEvent::Liquidation { timestamp, .. } => *timestamp,
            TimelineEvent::Deposit { timestamp, .. } => *timestamp,
            TimelineEvent::Withdrawal { timestamp, .. } => *timestamp,
        }
    }
}

/// A wallet's events in ascending time order, with the span they cover.
#[derive(Debug)]
pub struct Timeline {
    pub wallet: String,
    pub events: Vec<TimelineEvent>,
    pub from_timestamp: Option<i64>,
    pub to_timestamp: Option<i64>,
}

impl Timeline {
    /// Every event's amounts are within the limit that aggregation relies on.
    pub open spec fn wf(&self) -> bool {
        forall|i: int| 0 <= i < self.events@.len() ==> #[trigger] self.events@[i].within_limits()
    }

    /// Whether every event's amounts are within the limit that aggregation
    /// relies on.
    pub fn amounts_within_limits(&self) -> (r: bool)
        ensures
            r == self.wf(),
    {
        let mut i: usize = 0;
        while i < self.events.len()
            invariant
                i <= self.events@.len(),
                forall|j: int| 0 <= j < i ==> #[trigger] self.events@[j].within_limits(),
            decreases self.events@.len() - i,
        {
            if !self.events[i].amounts_within_limits() {
                return false;
            }
            i = i + 1;
        }
        true
    }
}

/// The events are in non-decreasing time order.
pub open spec fn sorted_by_time(s: Seq<TimelineEvent>) -> bool {
    forall|i: int, j: int| 0 <= i < j < s.len() ==> s[i].time() <= s[j].time()
}

/// The events of `s` that happen at instant `t`, in their order in `s`.
pub open spec fn events_at(s: Seq<TimelineEvent>, t: int) -> Seq<TimelineEvent>
    decreases s.len(),
{
    if s.len() == 0 {
        Seq::empty()
    } else if s.last().time() == t {
        events_at(s.drop_last(), t).push(s.last())
    } else {
        events_at(s.drop_last(), t)
    }
}

/// The units of an optional literal field.
pub open spec fn field_units(f: Option<String>) -> Option<int> {
    match f {
        Some(s) => literal_units(s@),
        None => None,
    }
}

pub open spec fn units_or_zero(f: Option<String>) -> Decimal {
    match field_units(f) {
        Some(u) => Decimal { units: u as i128 },
        None => Decimal { units: 0 },
    }
}

pub open spec fn optional_units(f: Option<String>) -> Option<Decimal> {
    match field_units(f) {
        Some(u) => Some(Decimal { units: u as i128 }),
        None => None,
    }
}

/// The timestamp of a record, where it is present and chrono can represent it.
pub open spec fn valid_time(t: Option<i64>) -> bool {
    t matches Some(ms) && millis_in_range(ms as int)
}

pub open spec fn valid_coin(c: Option<String>) -> bool {
    c matches Some(s) && s@.len() > 0
}

/// The event that a raw fill becomes, if its required fields are all valid:
/// a representable time, a non-empty coin, a side, and a size and a price that
/// read as amounts. A fee that does not read as an amount (see
/// `Decimal::parse`) is zero, and such a realized PnL is absent.
pub open spec fn fill_event(r: RawFill) -> Option<TimelineEvent> {
    if valid_time(r.time) && valid_coin(r.coin) && r.side is Some && field_units(r.sz) is Some
        && field_units(r.px) is Some {
        Some(
            TimelineEvent::Fill {
                timestamp: r.time->0,
                coin: r.coin->0,
                side: r.side->0,
                size: Decimal { units: field_units(r.sz)->0 as i128 },
                price: Decimal { units: field_units(r.px)->0 as i128 },
                fee: units_or_zero(r.fee),
                realized_pnl: optional_units(r.closed_pnl),
                tx_hash: r.hash,
            },
        )
    } else {
        None
    }
}

/// The event that a raw funding payment becomes, if its required fields are
/// all valid: a representable time, a coin and an amount. A funding rate that
/// does not read as an amount is zero.
pub open spec fn funding_event(r: RawFunding) -> Option<TimelineEvent> {
    if valid_time(r.time) && r.coin is Some && field_units(r.usdc) is Some {
        Some(
            TimelineEvent::Funding {
                timestamp: r.time->0,
                coin: r.coin->0,
                amount: Decimal { units: field_units(r.usdc)->0 as i128 },
                funding_rate: units_or_zero(r.funding_rate),
            },
        )
    } else {
        None
    }
}

/// The events of the valid fills, in input order.
pub open spec fn fill_events(s: Seq<RawFill>) -> Seq<TimelineEvent>
    decreases s.len(),
{
    if s.len() == 0 {
        Seq::empty()
    } else {
        match fill_event(s.last()) {
            Some(e) => fill_events(s.drop_last()).push(e),
            None => fill_events(s.drop_last()),
        }
    }
}

/// The events of the valid funding payments, in input order.
pub open spec fn funding_events(s: Seq<RawFunding>) -> Seq<TimelineEvent>
    decreases s.len(),
{
    if s.len() == 0 {
        Seq::empty()
    } else {
        match funding_event(s.last()) {
            Some(e) => funding_events(s.drop_last()).push(e),
            None => funding_events(s.drop_last()),
        }
    }
}

proof fn lemma_events_at_concat(a: Seq<TimelineEvent>, b: Seq<TimelineEvent>, t: int)
    ensures
        events_at(a + b, t) == events_at(a, t) + events_at(b, t),
    decreases b.len(),
{
    if b.len() == 0 {
        assert(a + b =~= a);
        assert(events_at(b, t) =~= Seq::<TimelineEvent>::empty());
        assert(events_at(a, t) + events_at(b, t) =~= events_at(a, t));
    } else {
        assert((a + b).drop_last() =~= a + b.drop_last());
        lemma_events_at_concat(a, b.drop_last(), t);
        if b.last().time() == t {
            assert(events_at(a, t) + events_at(b.drop_last(), t).push(b.last()) =~= (events_at(
                a,
                t,
            ) + events_at(b.drop_last(), t)).push(b.last()));
        }
    }
}

proof fn lemma_events_at_none(s: Seq<TimelineEvent>, t: int)
    requires
        forall|i: int| 0 <= i < s.len() ==> #[trigger] s[i].time() != t,
    ensures
        events_at(s, t) == Seq::<TimelineEvent>::empty(),
    decreases s.len(),
{
    if s.len() > 0 {
        lemma_events_at_none(s.drop_last(), t);
    }
}

/// Inserts `x` after every event that is not later than it.
fn insert_by_time(sorted: &mut Vec<TimelineEvent>, x: TimelineEvent) -> (p: usize)
    requires
        sorted_by_time(old(sorted)@),
    ensures
        p <= old(sorted)@.len(),
        final(sorted)@ == old(sorted)@.insert(p as int, x),
        sorted_by_time(final(sorted)@),
        forall|t: int| #[trigger]
            events_at(final(sorted)@, t) == events_at(old(sorted)@.push(x), t),
{
    let ghost s = sorted@;
    let xt = x.timestamp();
    let mut p: usize = sorted.len();
    while p > 0 && sorted[p - 1].timestamp() > xt
        invariant
            p <= s.len(),
            sorted@ == s,
            forall|i: int| p <= i < s.len() ==> #[trigger] s[i].time() > xt,
        decreases p,
    {
        p = p - 1;
    }
    assert(forall|i: int| 0 <= i < p ==> #[trigger] s[i].time() <= xt) by {
        if p > 0 {
            assert(s[p - 1].time() <= xt);
        }
    }
    sorted.insert(p, x);
    let ghost n = sorted@;
    assert(n =~= s.subrange(0, p as int) + seq![x] + s.subrange(p as int, s.len() as int));
    assert(sorted_by_time(n)) by {
        assert forall|i: int, j: int| 0 <= i < j < n.len() implies n[i].time() <= n[j].time() by {
            if j < p {
                assert(n[i] == s[i] && n[j] == s[j]);
            } else if j == p {
                assert(n[i] == s[i]);
            } else if i < p {
                assert(n[i] == s[i] && n[j] == s[j - 1]);
            } else if i == p {
                assert(n[j] == s[j - 1]);
            } else {
                assert(n[i] == s[i - 1] && n[j] == s[j - 1]);
            }
        }
    }
    assert forall|t: int| #[trigger] events_at(n, t) == events_at(s.push(x), t) by {
        let lo = s.subrange(0, p as int);
        let hi = s.subrange(p as int, s.len() as int);
        assert(s =~= lo + hi);
        assert(s.push(x) =~= lo + hi + seq![x]);
        lemma_events_at_concat(lo + seq![x], hi, t);
        lemma_events_at_concat(lo, seq![x], t);
        lemma_events_at_concat(lo + hi, seq![x], t);
        lemma_events_at_concat(lo, hi, t);
        if xt == t {
            assert forall|i: int| 0 <= i < hi.len() implies #[trigger] hi[i].time() != t by {
                assert(hi[i] == s[i + p]);
            }
            lemma_events_at_none(hi, t);
            assert(events_at(n, t) =~= events_at(s.push(x), t));
        } else {
            assert(seq![x].drop_last() =~= Seq::<TimelineEvent>::empty());
            assert(seq![x].last() == x);
            assert(events_at(Seq::<TimelineEvent>::empty(), t) =~= Seq::<TimelineEvent>::empty());
            assert(events_at(seq![x], t) =~= Seq::<TimelineEvent>::empty());
            assert(events_at(n, t) =~= events_at(s.push(x), t));
        }
    }
    p
}

proof fn lemma_events_at_push(s: Seq<TimelineEvent>, e: TimelineEvent, t: int)
    ensures
        events_at(s.push(e), t) == if e.time() == t {
            events_at(s, t).push(e)
        } else {
            events_at(s, t)
        },
{
    assert(s.push(e).drop_last() =~= s);
}

/// Inserting `e` keeps the events grouped by instant as `order` is.
proof fn lemma_insert_keeps(
    old_events: Seq<TimelineEvent>,
    new_events: Seq<TimelineEvent>,
    p: int,
    e: TimelineEvent,
    order: Seq<TimelineEvent>,
)
    requires
        0 <= p <= old_events.len(),
        new_events == old_events.insert(p, e),
        forall|t: int| #[trigger] events_at(new_events, t) == events_at(old_events.push(e), t),
        forall|t: int| #[trigger] events_at(old_events, t) == events_at(order, t),
    ensures
        forall|t: int| #[trigger] events_at(new_events, t) == events_at(order.push(e), t),
{
    assert forall|t: int| #[trigger] events_at(new_events, t) == events_at(order.push(e), t) by {
        assert(events_at(new_events, t) == events_at(old_events.push(e), t));
        assert(events_at(old_events, t) == events_at(order, t));
        lemma_events_at_push(old_events, e, t);
        lemma_events_at_push(order, e, t);
    }
}

/// Copies an optional text field.
fn copy_text(f: &Option<String>) -> (r: Option<String>)
    ensures
        r == *f,
{
    match f {
        Some(s) => Some(s.clone()),
        None => None,
    }
}

/// Reads an optional decimal field.
pub(crate) fn read_amount(f: &Option<String>) -> (r: Option<Decimal>)
    ensures
        r == optional_units(*f),
{
    match f {
        Some(s) => Decimal::parse(s.as_str()),
        None => None,
    }
}

/// Reads the timestamp of a record, where it is present and representable.
fn read_time(t: Option<i64>) -> (r: Option<i64>)
    ensures
        r matches Some(ms) <==> valid_time(t),
        r matches Some(ms) ==> t == Some(ms),
{
    match t {
        Some(ms) => if in_range(ms) {
            Some(ms)
        } else {
            None
        },
        None => None,
    }
}

/// Reads the coin symbol of a record, where it is present and not empty.
fn read_coin(c: &Option<String>) -> (r: Option<String>)
    ensures
        r is Some <==> valid_coin(*c),
        r is Some ==> r == *c,
{
    match c {
        Some(s) => if s.as_str().is_empty() {
            None
        } else {
            Some(s.clone())
        },
        None => None,
    }
}

/// Builds timelines from raw records.
pub struct TimelineService;

impl TimelineService {
    pub fn new() -> (r: TimelineService) {
        TimelineService
    }

    /// Merges the valid fills and funding payments into one timeline, stably
    /// sorted by timestamp. Malformed records are left out; this never fails.
    pub fn build_timeline(&self, wallet: &str, fills: Vec<RawFill>, funding: Vec<RawFunding>) -> (r:
        Timeline)
        ensures
            r.wallet@ == wallet@,
            sorted_by_time(r.events@),
            r.events@.len() == fill_events(fills@).len() + funding_events(funding@).len(),
            forall|t: int| #[trigger]
                events_at(r.events@, t) == events_at(
                    fill_events(fills@) + funding_events(funding@),
                    t,
                ),
            r.events@.len() == 0 ==> r.from_timestamp is None && r.to_timestamp is None,
            r.events@.len() > 0 ==> (r.from_timestamp matches Some(a) && a as int == r.events@[0].time())
                && (r.to_timestamp matches Some(b) && b as int == r.events@.last().time()),
    {
        let mut events: Vec<TimelineEvent> = Vec::new();
        let mut i: usize = 0;
        while i < fills.len()
            invariant
                i <= fills@.len(),
                sorted_by_time(events@),
                events@.len() == fill_events(fills@.subrange(0, i as int)).len(),
                forall|t: int| #[trigger]
                    events_at(events@, t) == events_at(fill_events(fills@.subrange(0, i as int)), t),
            decreases fills@.len() - i,
        {
            let ghost before = events@;
            let ghost prefix = fills@.subrange(0, i as int);
            assert(fills@.subrange(0, i + 1).drop_last() =~= prefix);
            match self.parse_fill(&fills[i]) {
                Some(e) => {
                    let ghost ge = e;
                    let p = insert_by_time(&mut events, e);
                    proof {
                        lemma_insert_keeps(before, events@, p as int, ge, fill_events(prefix));
                    }
                },
                None => {},
            }
            i = i + 1;
        }
        assert(fills@.subrange(0, fills@.len() as int) =~= fills@);
        let ghost all_fills = fill_events(fills@);
        let mut j: usize = 0;
        while j < funding.len()
            invariant
                j <= funding@.len(),
                all_fills == fill_events(fills@),
                sorted_by_time(events@),
                events@.len() == all_fills.len() + funding_events(funding@.subrange(0, j as int)).len(),
                forall|t: int| #[trigger]
                    events_at(events@, t) == events_at(
                        all_fills + funding_events(funding@.subrange(0, j as int)),
                        t,
                    ),
            decreases funding@.len() - j,
        {
            let ghost before = events@;
            let ghost prefix = funding@.subrange(0, j as int);
            assert(funding@.subrange(0, j + 1).drop_last() =~= prefix);
            match self.parse_funding(&funding[j]) {
                Some(e) => {
                    let ghost ge = e;
                    let p = insert_by_time(&mut events, e);
                    assert(all_fills + funding_events(prefix).push(ge) =~= (all_fills
                        + funding_events(prefix)).push(ge));
                    proof {
                        lemma_insert_keeps(
                            before,
                            events@,
                            p as int,
                            ge,
                            all_fills + funding_events(prefix),
                        );
                    }
                },
                None => {},
            }
            j = j + 1;
        }
        assert(funding@.subrange(0, funding@.len() as int) =~= funding@);
        let n = events.len();
        let from_timestamp = if n == 0 {
            None
        } else {
            Some(events[0].timestamp())
        };
        let to_timestamp = if n == 0 {
            None
        } else {
            Some(events[n - 1].timestamp())
        };
        Timeline { wallet: wallet.to_owned(), events, from_timestamp, to_timestamp }
    }

    /// The fill event of a raw fill, or `None` where a required field is
    /// missing or invalid.
    fn parse_fill(&self, fill: &RawFill) -> (r: Option<TimelineEvent>)
        ensures
            r == fill_event(*fill),
    {
        let timestamp = match read_time(fill.time) {
            Some(t) => t,
            None => {
                return None;
            },
        };
        let coin = match read_coin(&fill.coin) {
            Some(c) => c,
            None => {
                return None;
            },
        };
        let side = match copy_text(&fill.side) {
            Some(s) => s,
            None => {
                return None;
            },
        };
        let size = match read_amount(&fill.sz) {
            Some(d) => d,
            None => {
                return None;
            },
        };
        let price = match read_amount(&fill.px) {
            Some(d) => d,
            None => {
                return None;
            },
        };
        let fee = match read_amount(&fill.fee) {
            Some(d) => d,
            None => Decimal::zero(),
        };
        let realized_pnl = read_amount(&fill.closed_pnl);
        let tx_hash = copy_text(&fill.hash);
        Some(TimelineEvent::Fill { timestamp, coin, side, size, price, fee, realized_pnl, tx_hash })
    }

    /// The funding event of a raw funding payment, or `None` where a required
    /// field is missing or invalid.
    fn parse_funding(&self, payment: &RawFunding) -> (r: Option<TimelineEvent>)
        ensures
            r == funding_event(*payment),
    {
        let timestamp = match read_time(payment.time) {
            Some(t) => t,
            None => {
                return None;
            },
        };
        let coin = match copy_text(&payment.coin) {
            Some(c) => c,
            None => {
                return None;
            },
        };
        let amount = match read_amount(&payment.usdc) {
            Some(d) => d,
            None => {
                return None;
            },
        };
        let funding_rate = match read_amount(&payment.funding_rate) {
            Some(d) => d,
            None => Decimal::zero(),
        };
        Some(TimelineEvent::Funding { timestamp, coin, amount, funding_rate })
    }
}

proof fn lemma_fill_events_concat(a: Seq<RawFill>, b: Seq<RawFill>)
    ensures
        fill_events(a + b) == fill_events(a) + fill_events(b),
    decreases b.len(),
{
    if b.len() == 0 {
        assert(a + b =~= a);
        assert(fill_events(a) + fill_events(b) =~= fill_events(a));
    } else {
        assert((a + b).drop_last() =~= a + b.drop_last());
        lemma_fill_events_concat(a, b.drop_last());
        match fill_event(b.last()) {
            Some(e) => {
                assert(fill_events(a) + fill_events(b.drop_last()).push(e) =~= (fill_events(a)
                    + fill_events(b.drop_last())).push(e));
            },
            None => {},
        }
    }
}

/// A fill record without a size yields no event: wherever it stands among
/// other fill records, the events are those of the other records alone.
pub proof fn lemma_fill_without_size_dropped(before: Seq<RawFill>, record: RawFill, after: Seq<RawFill>)
    requires
        record.sz is None,
    ensures
        fill_events(before + seq![record] + after) == fill_events(before + after),
{
    lemma_fill_events_concat(before + seq![record], after);
    lemma_fill_events_concat(before, seq![record]);
    lemma_fill_events_concat(before, after);
    assert(seq![record].drop_last() =~= Seq::<RawFill>::empty());
    assert(seq![record].last() == record);
    assert(fill_event(record) is None);
    assert(fill_events(Seq::<RawFill>::empty()) =~= Seq::<TimelineEvent>::empty());
    assert(fill_events(seq![record]) =~= Seq::<TimelineEvent>::empty());
    assert(fill_events(before) + Seq::<TimelineEvent>::empty() =~= fill_events(before));
}

} // verus!
