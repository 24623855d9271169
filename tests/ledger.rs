use goker_ledger::decimal::Decimal;
use goker_ledger::pnl_calculator::{AccountState, PnlCalculator};
use goker_ledger::queries::{FillsQuery, FundingQuery, PnlQuery, TimelineQuery};
use goker_ledger::timeline::{RawFill, RawFunding, Timeline, TimelineEvent, TimelineService};

const DAY_MS: i64 = 86_400_000;

fn text(s: &str) -> Option<String> {
    Some(s.to_string())
}

fn fill(time: i64, coin: &str, side: &str, sz: &str, px: &str, fee: &str, closed_pnl: Option<&str>) -> RawFill {
    RawFill {
        time: Some(time),
        coin: text(coin),
        side: text(side),
        sz: text(sz),
        px: text(px),
        fee: text(fee),
        closed_pnl: closed_pnl.map(|p| p.to_string()),
        hash: None,
    }
}

fn funding(time: i64, coin: &str, usdc: &str, rate: &str) -> RawFunding {
    RawFunding { time: Some(time), coin: text(coin), usdc: text(usdc), funding_rate: text(rate) }
}

fn dec(s: &str) -> Decimal {
    Decimal::parse(s).expect("a valid literal")
}

fn times(t: &Timeline) -> Vec<i64> {
    t.events.iter().map(|e| e.timestamp()).collect()
}

fn scenario_timeline() -> Timeline {
    let service = TimelineService::new();
    let fills = vec![
        fill(1000, "BTC", "buy", "1.0", "50000", "5", None),
        fill(2000, "BTC", "sell", "1.0", "51000", "5", Some("1000")),
    ];
    let payments = vec![funding(1500, "BTC", "-2.5", "0.0001")];
    service.build_timeline("0xabc", fills, payments)
}

#[test]
fn decimal_literals_read_exactly() {
    assert_eq!(dec("987.5").units, 98_750_000_000);
    assert_eq!(dec("-2.5").units, -250_000_000);
    assert_eq!(dec("1e-3").units, 100_000);
    assert_eq!(dec("0.00000001").units, 1);
    assert_eq!(dec("1.50000000000").units, 150_000_000);
    assert_eq!(dec("0e-50").units, 0);
    assert_eq!(dec("1e30").units, 100_000_000_000_000_000_000_000_000_000_000_000_000);
    assert_eq!(dec("20000000000").units, 2_000_000_000_000_000_000);
    assert_eq!(Decimal::zero().units, 0);
}

#[test]
fn decimal_literals_refused() {
    assert!(Decimal::parse("notanumber").is_none());
    assert!(Decimal::parse("").is_none());
    assert!(Decimal::parse("0.000000001").is_none());
    assert!(Decimal::parse("1e31").is_none());
}

#[test]
fn scenario_two_fills_and_funding() {
    let timeline = scenario_timeline();
    assert_eq!(timeline.wallet, "0xabc");
    assert_eq!(times(&timeline), vec![1000, 1500, 2000]);
    assert!(matches!(timeline.events[0], TimelineEvent::Fill { .. }));
    assert!(matches!(timeline.events[1], TimelineEvent::Funding { .. }));
    assert!(matches!(timeline.events[2], TimelineEvent::Fill { .. }));
    assert_eq!(timeline.from_timestamp, Some(1000));
    assert_eq!(timeline.to_timestamp, Some(2000));

    let calc = PnlCalculator::new();
    let summary = calc.calculate_summary("0xabc", &timeline, Decimal::zero());
    assert_eq!(summary.realized_pnl, dec("1000"));
    assert_eq!(summary.funding_pnl, dec("-2.5"));
    assert_eq!(summary.trading_fees, dec("10"));
    assert_eq!(summary.total_pnl, dec("1000"));
    assert_eq!(summary.net_pnl, dec("987.5"));
    assert_eq!(summary.period_start, 1000);
    assert_eq!(summary.period_end, 2000);
    assert_eq!(summary.by_asset.len(), 1);
    let btc = &summary.by_asset[0];
    assert_eq!(btc.coin, "BTC");
    assert_eq!(btc.trade_count, 2);
    assert_eq!(btc.realized_pnl, dec("1000"));
    assert_eq!(btc.funding_pnl, dec("-2.5"));
    assert_eq!(btc.fees, dec("10"));
    assert_eq!(btc.net_pnl, dec("987.5"));

    let daily = calc.calculate_daily(&timeline);
    assert_eq!(daily.len(), 1);
    assert_eq!(daily[0].date, "1970-01-01");
    assert_eq!(daily[0].pnl, dec("987.5"));
    assert_eq!(daily[0].cumulative_pnl, dec("987.5"));
}

#[test]
fn fill_fields_are_kept() {
    let timeline = scenario_timeline();
    match &timeline.events[2] {
        TimelineEvent::Fill { coin, side, size, price, fee, realized_pnl, tx_hash, .. } => {
            assert_eq!(coin, "BTC");
            assert_eq!(side, "sell");
            assert_eq!(*size, dec("1"));
            assert_eq!(*price, dec("51000"));
            assert_eq!(*fee, dec("5"));
            assert_eq!(*realized_pnl, Some(dec("1000")));
            assert_eq!(*tx_hash, None);
        }
        other => panic!("expected a fill, got {:?}", other),
    }
    match &timeline.events[1] {
        TimelineEvent::Funding { coin, amount, funding_rate, .. } => {
            assert_eq!(coin, "BTC");
            assert_eq!(*amount, dec("-2.5"));
            assert_eq!(*funding_rate, dec("0.0001"));
        }
        other => panic!("expected a funding payment, got {:?}", other),
    }
}

#[test]
fn fill_without_size_is_dropped() {
    let service = TimelineService::new();
    let mut missing = fill(1000, "ETH", "buy", "1", "3000", "1", None);
    missing.sz = None;
    let bad = fill(2000, "ETH", "buy", "notanumber", "3000", "1", None);
    let good = fill(3000, "ETH", "sell", "2", "3100", "1", Some("200"));
    let timeline = service.build_timeline("w", vec![missing, bad, good], vec![]);
    assert_eq!(times(&timeline), vec![3000]);
}

#[test]
fn records_missing_required_fields_are_dropped() {
    let service = TimelineService::new();
    let mut no_time = fill(1, "ETH", "buy", "1", "1", "1", None);
    no_time.time = None;
    let mut no_side = fill(2, "ETH", "buy", "1", "1", "1", None);
    no_side.side = None;
    let mut no_price = fill(3, "ETH", "buy", "1", "1", "1", None);
    no_price.px = text("x");
    let empty_coin = fill(4, "", "buy", "1", "1", "1", None);
    let far_future = fill(i64::MAX, "ETH", "buy", "1", "1", "1", None);
    let kept = fill(6, "ETH", "buy", "1", "1", "1", None);
    let mut no_amount = funding(7, "ETH", "1", "0");
    no_amount.usdc = None;
    let mut no_coin = funding(8, "ETH", "1", "0");
    no_coin.coin = None;
    let kept_funding = funding(9, "ETH", "1", "0");
    let timeline = service.build_timeline(
        "w",
        vec![no_time, no_side, no_price, empty_coin, far_future, kept],
        vec![no_amount, no_coin, kept_funding],
    );
    assert_eq!(times(&timeline), vec![6, 9]);
}

#[test]
fn optional_fields_default() {
    let service = TimelineService::new();
    let mut f = fill(10, "SOL", "buy", "3", "20", "x", Some("bad"));
    f.fee = text("not a fee");
    f.hash = text("0xfeed");
    let mut p = funding(20, "SOL", "0.5", "0");
    p.funding_rate = None;
    let timeline = service.build_timeline("w", vec![f], vec![p]);
    match &timeline.events[0] {
        TimelineEvent::Fill { fee, realized_pnl, tx_hash, .. } => {
            assert_eq!(*fee, Decimal::zero());
            assert_eq!(*realized_pnl, None);
            assert_eq!(tx_hash.as_deref(), Some("0xfeed"));
        }
        other => panic!("expected a fill, got {:?}", other),
    }
    match &timeline.events[1] {
        TimelineEvent::Funding { funding_rate, .. } => assert_eq!(*funding_rate, Decimal::zero()),
        other => panic!("expected a funding payment, got {:?}", other),
    }
}

#[test]
fn timeline_is_ordered_by_time() {
    let service = TimelineService::new();
    let fills = vec![
        fill(500, "A", "buy", "1", "1", "0", None),
        fill(100, "B", "buy", "1", "1", "0", None),
        fill(900, "A", "sell", "1", "1", "0", None),
    ];
    let payments = vec![funding(300, "A", "1", "0"), funding(50, "B", "1", "0")];
    let timeline = service.build_timeline("w", fills, payments);
    assert_eq!(times(&timeline), vec![50, 100, 300, 500, 900]);
    assert_eq!(timeline.from_timestamp, Some(50));
    assert_eq!(timeline.to_timestamp, Some(900));
}

#[test]
fn equal_timestamps_keep_input_order() {
    let service = TimelineService::new();
    let fills = vec![fill(100, "A", "buy", "1", "1", "0", None), fill(100, "B", "buy", "1", "1", "0", None)];
    let payments = vec![funding(100, "C", "1", "0")];
    let timeline = service.build_timeline("w", fills, payments);
    let coins: Vec<String> = timeline
        .events
        .iter()
        .map(|e| match e {
            TimelineEvent::Fill { coin, .. } => coin.clone(),
            TimelineEvent::Funding { coin, .. } => coin.clone(),
            _ => String::new(),
        })
        .collect();
    assert_eq!(coins, vec!["A", "B", "C"]);
}

#[test]
fn empty_input() {
    let service = TimelineService::new();
    let timeline = service.build_timeline("w", vec![], vec![]);
    assert!(timeline.events.is_empty());
    assert_eq!(timeline.from_timestamp, None);
    assert_eq!(timeline.to_timestamp, None);
    let calc = PnlCalculator::new();
    let summary = calc.calculate_summary("w", &timeline, Decimal::zero());
    assert_eq!(summary.realized_pnl, Decimal::zero());
    assert_eq!(summary.unrealized_pnl, Decimal::zero());
    assert_eq!(summary.total_pnl, Decimal::zero());
    assert_eq!(summary.funding_pnl, Decimal::zero());
    assert_eq!(summary.trading_fees, Decimal::zero());
    assert_eq!(summary.net_pnl, Decimal::zero());
    assert!(summary.by_asset.is_empty());
    assert_eq!(summary.period_start, summary.period_end);
    assert!(calc.calculate_daily(&timeline).is_empty());
}

#[test]
fn empty_timeline_period_is_now() {
    let calc = PnlCalculator::new();
    let timeline = Timeline { wallet: "w".to_string(), events: vec![], from_timestamp: None, to_timestamp: None };
    let summary = calc.summarize("w", &timeline, dec("3"), 1_700_000_000_000);
    assert_eq!(summary.period_start, 1_700_000_000_000);
    assert_eq!(summary.period_end, 1_700_000_000_000);
    assert_eq!(summary.total_pnl, dec("3"));
    assert_eq!(summary.net_pnl, dec("3"));
}

#[test]
fn per_asset_sums_match_totals() {
    let service = TimelineService::new();
    let fills = vec![
        fill(1, "BTC", "buy", "1", "100", "1.25", Some("10")),
        fill(2, "ETH", "buy", "1", "100", "0.5", Some("-4.75")),
        fill(3, "BTC", "sell", "1", "100", "2", None),
        fill(4, "SOL", "sell", "1", "100", "0.125", Some("3")),
    ];
    let payments = vec![funding(5, "ETH", "1.5", "0"), funding(6, "DOGE", "-0.25", "0")];
    let timeline = service.build_timeline("w", fills, payments);
    let calc = PnlCalculator::new();
    let summary = calc.calculate_summary("w", &timeline, dec("100"));
    let coins: Vec<&str> = summary.by_asset.iter().map(|a| a.coin.as_str()).collect();
    assert_eq!(coins, vec!["BTC", "ETH", "SOL", "DOGE"]);
    let realized: i128 = summary.by_asset.iter().map(|a| a.realized_pnl.units).sum();
    let funding_sum: i128 = summary.by_asset.iter().map(|a| a.funding_pnl.units).sum();
    let fees: i128 = summary.by_asset.iter().map(|a| a.fees.units).sum();
    assert_eq!(realized, summary.realized_pnl.units);
    assert_eq!(funding_sum, summary.funding_pnl.units);
    assert_eq!(fees, summary.trading_fees.units);
    assert_eq!(summary.realized_pnl, dec("8.25"));
    assert_eq!(summary.funding_pnl, dec("1.25"));
    assert_eq!(summary.trading_fees, dec("3.875"));
    assert_eq!(summary.total_pnl, dec("108.25"));
    assert_eq!(summary.net_pnl, dec("105.625"));
    assert_eq!(summary.by_asset[0].trade_count, 2);
    assert_eq!(summary.by_asset[0].net_pnl, dec("6.75"));
    assert_eq!(summary.by_asset[3].trade_count, 0);
    assert_eq!(summary.by_asset[3].net_pnl, dec("-0.25"));
}

#[test]
fn daily_series_accumulates() {
    let service = TimelineService::new();
    let fills = vec![
        fill(2 * DAY_MS + 5, "BTC", "sell", "1", "1", "1", Some("50")),
        fill(10, "BTC", "buy", "1", "1", "2", None),
        fill(DAY_MS + 7, "ETH", "sell", "1", "1", "0.5", Some("-10")),
    ];
    let payments = vec![funding(20, "BTC", "4", "0"), funding(2 * DAY_MS + 9, "ETH", "-1", "0")];
    let timeline = service.build_timeline("w", fills, payments);
    let daily = PnlCalculator::new().calculate_daily(&timeline);
    let dates: Vec<&str> = daily.iter().map(|d| d.date.as_str()).collect();
    assert_eq!(dates, vec!["1970-01-01", "1970-01-02", "1970-01-03"]);
    assert_eq!(daily[0].pnl, dec("2"));
    assert_eq!(daily[1].pnl, dec("-10.5"));
    assert_eq!(daily[2].pnl, dec("48"));
    assert_eq!(daily[0].cumulative_pnl, daily[0].pnl);
    for i in 1..daily.len() {
        assert_eq!(daily[i].cumulative_pnl.units, daily[i - 1].cumulative_pnl.units + daily[i].pnl.units);
    }
    let all: i128 = daily.iter().map(|d| d.pnl.units).sum();
    assert_eq!(daily[2].cumulative_pnl.units, all);
    assert_eq!(daily[2].cumulative_pnl, dec("39.5"));
}

#[test]
fn daily_dates_follow_the_calendar() {
    let service = TimelineService::new();
    let year_ms = 365 * DAY_MS;
    let fills = vec![fill(year_ms, "BTC", "buy", "1", "1", "1", None), fill(-1, "BTC", "buy", "1", "1", "1", None)];
    let timeline = service.build_timeline("w", fills, vec![]);
    let daily = PnlCalculator::new().calculate_daily(&timeline);
    let dates: Vec<&str> = daily.iter().map(|d| d.date.as_str()).collect();
    assert_eq!(dates, vec!["1969-12-31", "1971-01-01"]);
}

#[test]
fn liquidation_counts_as_a_loss_in_daily_only() {
    let events = vec![
        TimelineEvent::Liquidation { timestamp: 10, coin: "BTC".to_string(), size: dec("1"), price: dec("1"), loss: dec("7") },
        TimelineEvent::Deposit { timestamp: 20, amount: dec("100"), token: "USDC".to_string() },
        TimelineEvent::Withdrawal { timestamp: 30, amount: dec("5"), token: "USDC".to_string() },
    ];
    let timeline = Timeline { wallet: "w".to_string(), events, from_timestamp: Some(10), to_timestamp: Some(30) };
    let calc = PnlCalculator::new();
    let daily = calc.calculate_daily(&timeline);
    assert_eq!(daily.len(), 1);
    assert_eq!(daily[0].pnl, dec("-7"));
    let summary = calc.calculate_summary("w", &timeline, Decimal::zero());
    assert_eq!(summary.net_pnl, Decimal::zero());
    assert!(summary.by_asset.is_empty());
    assert_eq!(summary.period_start, 10);
    assert_eq!(summary.period_end, 30);
}

#[test]
fn unrealized_skips_bad_entries() {
    let calc = PnlCalculator::new();
    let state = AccountState { asset_positions: vec![text("12.5"), text("bad")] };
    assert_eq!(calc.calculate_unrealized_from_state(&state), Some(dec("12.5")));
    let more = AccountState { asset_positions: vec![text("-3.25"), None, text("1e1")] };
    assert_eq!(calc.calculate_unrealized_from_state(&more), Some(dec("6.75")));
    let none = AccountState { asset_positions: vec![] };
    assert_eq!(calc.calculate_unrealized_from_state(&none), Some(Decimal::zero()));
    let large = AccountState { asset_positions: vec![text("20000000000"), text("0.5")] };
    assert_eq!(calc.calculate_unrealized_from_state(&large), Some(dec("20000000000.5")));
    let too_large = AccountState { asset_positions: vec![text("1e30"), text("1e30")] };
    assert_eq!(calc.calculate_unrealized_from_state(&too_large), None);
}

#[test]
fn query_parameters() {
    let fills = FillsQuery { wallet: "a".to_string(), since: Some(5) };
    let funding = FundingQuery { wallet: "b".to_string(), since: None };
    let pnl = PnlQuery { wallet: "c".to_string(), since: Some(0) };
    let timeline = TimelineQuery { wallet: "d".to_string(), since: None };
    assert_eq!(fills.since, Some(5));
    assert_eq!(funding.wallet, "b");
    assert_eq!(pnl.since, Some(0));
    assert_eq!(timeline.wallet, "d");
}

#[test]
fn large_amounts_are_read() {
    let service = TimelineService::new();
    let big = fill(1, "BTC", "buy", "20000000000", "50000", "20000000000", Some("20000000000"));
    let payment = funding(2, "", "-20000000000", "0");
    let timeline = service.build_timeline("w", vec![big], vec![payment]);
    assert_eq!(times(&timeline), vec![1, 2]);
    match &timeline.events[0] {
        TimelineEvent::Fill { size, fee, realized_pnl, .. } => {
            assert_eq!(*size, dec("20000000000"));
            assert_eq!(*fee, dec("20000000000"));
            assert_eq!(*realized_pnl, Some(dec("20000000000")));
        }
        other => panic!("expected a fill, got {:?}", other),
    }
    match &timeline.events[1] {
        TimelineEvent::Funding { coin, amount, .. } => {
            assert_eq!(coin, "");
            assert_eq!(*amount, dec("-20000000000"));
        }
        other => panic!("expected a funding payment, got {:?}", other),
    }
    assert!(!timeline.amounts_within_limits());
    assert!(scenario_timeline().amounts_within_limits());
}

#[test]
fn too_precise_fee_counts_as_zero() {
    let service = TimelineService::new();
    let f = fill(1, "BTC", "buy", "1", "1", "0.000000001", Some("0.123456789"));
    let timeline = service.build_timeline("w", vec![f], vec![]);
    match &timeline.events[0] {
        TimelineEvent::Fill { fee, realized_pnl, .. } => {
            assert_eq!(*fee, Decimal::zero());
            assert_eq!(*realized_pnl, None);
        }
        other => panic!("expected a fill, got {:?}", other),
    }
}
