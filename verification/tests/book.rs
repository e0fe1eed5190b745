use cli_ob::binary64::Binary64;
use cli_ob::book::{OrderBook, RestDepthResponse, WsDepthUpdate};
use cli_ob::impact::MarketImpact;

fn num(x: f64) -> Binary64 {
    Binary64::from_bits(x.to_bits())
}

fn val(x: Binary64) -> f64 {
    f64::from_bits(x.to_bits())
}

fn pair(best: Option<(Binary64, Binary64)>) -> Option<(f64, f64)> {
    best.map(|(p, q)| (val(p), val(q)))
}

fn assert_close(left: f64, right: f64, tol: f64) {
    assert!((left - right).abs() <= tol, "left={left}, right={right}, tol={tol}");
}

fn entries(list: &[(&str, &str)]) -> Vec<[String; 2]> {
    list.iter().map(|(p, q)| [p.to_string(), q.to_string()]).collect()
}

fn snapshot(bids: &[(&str, &str)], asks: &[(&str, &str)]) -> RestDepthResponse {
    RestDepthResponse { last_update_id: 77, bids: entries(bids), asks: entries(asks) }
}

fn update(bids: &[(&str, &str)], asks: &[(&str, &str)]) -> WsDepthUpdate {
    WsDepthUpdate {
        event_type: "depthUpdate".to_string(),
        event_time: 1234,
        transaction_time: 1233,
        symbol: "TESTUSDT".to_string(),
        first_update_id: 78,
        final_update_id: 80,
        prev_final_update_id: 77,
        bids: entries(bids),
        asks: entries(asks),
    }
}

fn listed(book: &OrderBook) -> (Vec<(f64, f64)>, Vec<(f64, f64)>) {
    let flat = |levels: Vec<cli_ob::levels::PriceLevel>| {
        levels.iter().map(|l| (val(l.price), val(l.quantity))).collect::<Vec<_>>()
    };
    (flat(book.bids.entries()), flat(book.asks.entries()))
}

#[test]
fn estimate_market_impact_buy_with_partial_last_level() {
    let mut book = OrderBook::new();
    book.asks.insert(num(100.0), num(1.0));
    book.asks.insert(num(101.0), num(2.0));

    let impact = book.estimate_market_impact(num(150.0), true, num(100.0));

    assert!(impact.fully_filled);
    assert_eq!(impact.levels_consumed, 2);
    assert_close(val(impact.total_notional), 150.0, 1e-9);
    assert_close(val(impact.total_qty_filled), 1.495049504950495, 1e-12);
    assert_close(val(impact.avg_fill_price), 100.33112582781457, 1e-10);
    assert_close(val(impact.worst_fill_price), 101.0, 1e-9);
    assert_close(val(impact.slippage_bps), 33.11258278145695, 1e-9);
}

#[test]
fn estimate_market_impact_sell_partial_when_book_is_thin() {
    let mut book = OrderBook::new();
    book.bids.insert(num(99.0), num(1.0));
    book.bids.insert(num(98.0), num(1.0));

    let impact = book.estimate_market_impact(num(300.0), false, num(100.0));

    assert!(!impact.fully_filled);
    assert_eq!(impact.levels_consumed, 2);
    assert_close(val(impact.total_notional), 197.0, 1e-9);
    assert_close(val(impact.total_qty_filled), 2.0, 1e-9);
    assert_close(val(impact.avg_fill_price), 98.5, 1e-9);
    assert_close(val(impact.worst_fill_price), 98.0, 1e-9);
    assert_close(val(impact.slippage_pct), 1.5, 1e-9);
}

#[test]
fn estimate_market_impact_zero_notional_returns_default() {
    let book = OrderBook::new();
    let impact = book.estimate_market_impact(num(0.0), true, num(100.0));
    assert_eq!(
        impact,
        MarketImpact {
            avg_fill_price: num(0.0),
            worst_fill_price: num(0.0),
            slippage_bps: num(0.0),
            slippage_pct: num(0.0),
            levels_consumed: 0,
            total_qty_filled: num(0.0),
            total_notional: num(0.0),
            fully_filled: false,
        }
    );
}

#[test]
fn impact_of_a_negative_order_is_none() {
    let mut book = OrderBook::new();
    book.asks.insert(num(100.0), num(1.0));
    let impact = book.estimate_market_impact(num(-5.0), true, num(100.0));
    assert_eq!(impact, MarketImpact::default());
}

#[test]
fn impact_on_an_empty_book_fills_nothing() {
    let book = OrderBook::new();
    let impact = book.estimate_market_impact(num(10.0), false, num(100.0));
    assert_eq!(impact, MarketImpact::default());
}

#[test]
fn impact_skips_levels_without_value() {
    let mut book = OrderBook::new();
    book.asks.insert(num(-1.0), num(5.0));
    book.asks.insert(num(0.0), num(5.0));
    book.asks.insert(num(10.0), num(-2.0));
    book.asks.insert(num(1e-300), num(1e-300));
    book.asks.insert(num(20.0), num(3.0));
    let impact = book.estimate_market_impact(num(40.0), true, num(0.0));
    assert!(impact.fully_filled);
    assert_eq!(impact.levels_consumed, 1);
    assert_eq!(val(impact.total_qty_filled), 2.0);
    assert_eq!(val(impact.avg_fill_price), 20.0);
    assert_eq!(val(impact.slippage_pct), 0.0);
}

#[test]
fn impact_stops_at_the_level_that_completes_it() {
    let mut book = OrderBook::new();
    book.bids.insert(num(100.0), num(1.0));
    book.bids.insert(num(99.0), num(1.0));
    book.bids.insert(num(98.0), num(1.0));
    let impact = book.estimate_market_impact(num(100.0), false, num(100.0));
    assert!(impact.fully_filled);
    assert_eq!(impact.levels_consumed, 1);
    assert_eq!(val(impact.worst_fill_price), 100.0);
    assert_eq!(val(impact.total_qty_filled), 1.0);
}

#[test]
fn a_snapshot_replaces_the_book() {
    let mut book = OrderBook::new();
    book.bids.insert(num(1.0), num(1.0));
    book.asks.insert(num(2.0), num(1.0));
    book.clock_offset = -7;
    book.apply_snapshot(&snapshot(
        &[("100.5", "2"), ("101.0", "3"), ("99", "0"), ("bad", "1"), ("98", "x"), ("97", "-1")],
        &[("102", "4"), ("101.5", "5"), ("102.0", "6"), ("103", "NaN")],
    ));
    let (bids, asks) = listed(&book);
    assert_eq!(bids, vec![(100.5, 2.0), (101.0, 3.0)]);
    assert_eq!(asks, vec![(101.5, 5.0), (102.0, 6.0)]);
    assert_eq!(book.last_update_id, 77);
    assert_eq!(book.last_event_time, 0);
    assert_eq!(book.clock_offset, -7);
}

#[test]
fn the_same_snapshot_gives_the_same_book() {
    let given = snapshot(&[("1", "2")], &[("3", "4"), ("5", "6")]);
    let mut fresh = OrderBook::new();
    fresh.apply_snapshot(&given);
    let mut used = OrderBook::new();
    used.apply_snapshot(&snapshot(&[("8", "9")], &[("10", "11")]));
    used.apply_snapshot(&given);
    assert_eq!(listed(&fresh), listed(&used));
}

#[test]
fn an_update_sets_and_removes_levels() {
    let mut book = OrderBook::new();
    book.apply_snapshot(&snapshot(&[("100", "1"), ("99", "2")], &[("101", "1"), ("102", "2")]));
    book.apply_update(&update(
        &[("100", "0"), ("98.5", "7"), ("nope", "1")],
        &[("101.0", "0.00000"), ("102", "9"), ("103", "-3"), ("104", "0")],
    ));
    let (bids, asks) = listed(&book);
    assert_eq!(bids, vec![(98.5, 7.0), (99.0, 2.0)]);
    assert_eq!(asks, vec![(102.0, 9.0), (103.0, -3.0)]);
    assert_eq!(book.last_update_id, 80);
    assert_eq!(book.last_event_time, 1234);
}

#[test]
fn an_update_twice_is_the_update_once() {
    let change = update(&[("5", "1"), ("4", "0"), ("5", "2")], &[("6", "1")]);
    let mut once = OrderBook::new();
    once.apply_snapshot(&snapshot(&[("4", "1")], &[]));
    let mut twice = once.clone();
    once.apply_update(&change);
    twice.apply_update(&change);
    twice.apply_update(&change);
    assert_eq!(listed(&once), listed(&twice));
}

#[test]
fn updates_in_turn_are_one_longer_update() {
    let mut apart = OrderBook::new();
    apart.apply_update(&update(&[("5", "1"), ("4", "3")], &[("6", "1")]));
    apart.apply_update(&update(&[("5", "0")], &[("6", "2"), ("7", "1")]));
    let mut joined = OrderBook::new();
    joined.apply_update(&update(
        &[("5", "1"), ("4", "3"), ("5", "0")],
        &[("6", "1"), ("6", "2"), ("7", "1")],
    ));
    assert_eq!(listed(&apart), listed(&joined));
}

#[test]
fn zeros_share_a_level_and_keep_the_first_price() {
    let mut book = OrderBook::new();
    book.bids.insert(num(-0.0), num(1.0));
    book.bids.insert(num(0.0), num(2.0));
    let entries = book.bids.entries();
    assert_eq!(entries.len(), 1);
    assert_eq!(entries[0].price.to_bits(), (-0.0f64).to_bits());
    assert_eq!(val(entries[0].quantity), 2.0);
}

#[test]
fn a_nan_price_lies_above_all_others() {
    let mut book = OrderBook::new();
    book.apply_update(&update(&[("NaN", "1"), ("inf", "2"), ("-inf", "3")], &[]));
    let entries = book.bids.entries();
    assert_eq!(entries.len(), 3);
    assert_eq!(val(entries[0].price), f64::NEG_INFINITY);
    assert_eq!(val(entries[1].price), f64::INFINITY);
    assert!(entries[2].price.is_not_a_number());
    book.apply_update(&update(&[("-nan", "0")], &[]));
    assert_eq!(book.bids.len(), 2);
}

#[test]
fn best_prices_and_spread() {
    let mut book = OrderBook::new();
    assert_eq!(pair(book.best_bid()), None);
    assert_eq!(pair(book.best_ask()), None);
    assert!(book.spread().is_none());
    book.apply_snapshot(&snapshot(&[("99", "1"), ("100", "2"), ("98", "3")], &[]));
    assert_eq!(pair(book.best_bid()), Some((100.0, 2.0)));
    assert!(book.spread().is_none());
    book.apply_update(&update(&[], &[("100.5", "4"), ("100.25", "5"), ("110", "6")]));
    assert_eq!(pair(book.best_ask()), Some((100.25, 5.0)));
    assert_eq!(book.spread().map(val), Some(0.25));
}

#[test]
fn clear_and_remove_levels() {
    let mut book = OrderBook::new();
    book.asks.insert(num(1.0), num(1.0));
    book.asks.insert(num(2.0), num(1.0));
    book.asks.remove(num(1.0));
    assert_eq!(book.asks.len(), 1);
    assert_eq!(book.asks.lowest().map(|l| val(l.price)), Some(2.0));
    assert_eq!(book.asks.highest().map(|l| val(l.price)), Some(2.0));
    book.asks.clear();
    assert_eq!(book.asks.len(), 0);
    assert!(book.asks.lowest().is_none());
    assert!(book.asks.highest().is_none());
}

#[test]
fn the_last_positive_row_makes_a_level() {
    let mut book = OrderBook::new();
    book.apply_snapshot(&snapshot(&[("5", "1"), ("5.0", "2"), ("5", "0"), ("6", "0")], &[]));
    assert_eq!(listed(&book).0, vec![(5.0, 2.0)]);
}

#[test]
fn quantities_stay_positive() {
    let mut book = OrderBook::new();
    book.apply_snapshot(&snapshot(&[("5", "1"), ("6", "2")], &[("7", "3")]));
    book.apply_update(&update(&[("5", "0"), ("4", "9"), ("6", "-0")], &[("8", "0.5"), ("9", "0")]));
    let (bids, asks) = listed(&book);
    assert_eq!(bids, vec![(4.0, 9.0)]);
    assert!(bids.iter().chain(asks.iter()).all(|(_, q)| *q > 0.0));
}

#[test]
fn an_order_takes_the_least_depth_that_fills_it() {
    let mut book = OrderBook::new();
    for price in 1..=4 {
        book.asks.insert(num(price as f64 * 10.0), num(1.0));
    }
    for (notional, levels, filled) in
        [(10.0, 1, true), (10.5, 2, true), (30.0, 2, true), (100.0, 4, true), (100.5, 4, false)]
    {
        let impact = book.estimate_market_impact(num(notional), true, num(10.0));
        assert_eq!((impact.levels_consumed, impact.fully_filled), (levels, filled), "{notional}");
    }
}

#[test]
fn an_order_in_best_price_order_does_best() {
    let mut book = OrderBook::new();
    book.asks.insert(num(10.0), num(2.0));
    book.asks.insert(num(20.0), num(2.0));
    book.bids.insert(num(8.0), num(2.0));
    book.bids.insert(num(4.0), num(2.0));
    let buy = book.estimate_market_impact(num(40.0), true, num(9.0));
    assert_eq!(val(buy.total_qty_filled), 3.0);
    let sell = book.estimate_market_impact(num(20.0), false, num(9.0));
    assert_eq!(val(sell.total_qty_filled), 3.0);
}

#[test]
fn an_estimate_reads_one_side_only() {
    let mut book = OrderBook::new();
    book.asks.insert(num(10.0), num(2.0));
    let before = book.estimate_market_impact(num(15.0), true, num(9.0));
    book.bids.insert(num(9.0), num(2.0));
    book.asks.insert(num(-3.0), num(2.0));
    book.asks.insert(num(5.0), num(-2.0));
    assert_eq!(book.estimate_market_impact(num(15.0), true, num(9.0)), before);
}
