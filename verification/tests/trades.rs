use cli_ob::binary64::Binary64;
use cli_ob::trades::{Trade, TradeHistory, WsAggTrade};

fn num(x: f64) -> Binary64 {
    Binary64::from_bits(x.to_bits())
}

fn val(x: Binary64) -> f64 {
    f64::from_bits(x.to_bits())
}

fn assert_close(left: f64, right: f64, tol: f64) {
    assert!((left - right).abs() <= tol, "left={left}, right={right}, tol={tol}");
}

fn at(timestamp_ms: u64) -> Trade {
    Trade { timestamp_ms, price: num(100.0), quantity: num(1.0), is_buy: true }
}

#[test]
fn rolling_tps_returns_zero_for_empty_history() {
    let history = TradeHistory::new(300_000);
    assert_eq!(val(history.rolling_tps(100_000, 10_000)), 0.0);
}

#[test]
fn rolling_tps_returns_zero_when_all_trades_are_older_than_window() {
    let mut history = TradeHistory::new(300_000);
    history.trades.push_back(Trade {
        timestamp_ms: 89_000,
        price: num(100.0),
        quantity: num(1.0),
        is_buy: true,
    });
    history.trades.push_back(Trade {
        timestamp_ms: 89_500,
        price: num(100.0),
        quantity: num(1.0),
        is_buy: false,
    });

    assert_eq!(val(history.rolling_tps(100_000, 10_000)), 0.0);
}

#[test]
fn rolling_tps_counts_only_trades_inside_window() {
    let mut history = TradeHistory::new(300_000);
    history.trades.push_back(Trade {
        timestamp_ms: 89_999,
        price: num(100.0),
        quantity: num(1.0),
        is_buy: true,
    });
    history.trades.push_back(Trade {
        timestamp_ms: 90_000,
        price: num(101.0),
        quantity: num(2.0),
        is_buy: false,
    });
    history.trades.push_back(Trade {
        timestamp_ms: 95_000,
        price: num(102.0),
        quantity: num(1.0),
        is_buy: true,
    });
    history.trades.push_back(Trade {
        timestamp_ms: 99_500,
        price: num(103.0),
        quantity: num(3.0),
        is_buy: false,
    });

    let tps = history.rolling_tps(100_000, 10_000);
    assert_close(val(tps), 0.3, 1e-12);
}

#[test]
fn rolling_tps_includes_trade_at_exact_cutoff() {
    let mut history = TradeHistory::new(300_000);
    history.trades.push_back(Trade {
        timestamp_ms: 90_000,
        price: num(100.0),
        quantity: num(1.0),
        is_buy: true,
    });

    let tps = history.rolling_tps(100_000, 10_000);
    assert_close(val(tps), 0.1, 1e-12);
}

#[test]
fn rolling_tps_handles_dense_burst_with_decimal_result() {
    let mut history = TradeHistory::new(300_000);
    for i in 0..37_u64 {
        history.trades.push_back(Trade {
            timestamp_ms: 90_000 + i,
            price: num(100.0),
            quantity: num(1.0),
            is_buy: i % 2 == 0,
        });
    }

    let tps = history.rolling_tps(100_000, 10_000);
    assert_close(val(tps), 3.7, 1e-12);
}

#[test]
fn rolling_tps_of_an_empty_window_is_zero() {
    let mut history = TradeHistory::new(300_000);
    history.add_trade(at(5));
    assert_eq!(val(history.rolling_tps(5, 0)), 0.0);
    assert_eq!(val(history.rolling_tps(5, 250)), 4.0);
}

#[test]
fn trades_in_order_stay_within_the_window() {
    let mut history = TradeHistory::new(1_000);
    for time in [10, 500, 1_000, 1_010, 1_011, 2_500] {
        history.add_trade(at(time));
        assert!(history.trades.iter().all(|t| t.timestamp_ms + 1_000 >= time));
        assert_eq!(history.trades.back().map(|t| t.timestamp_ms), Some(time));
    }
    assert_eq!(history.trades.len(), 1);
}

#[test]
fn a_late_trade_drops_nothing() {
    let mut history = TradeHistory::new(100);
    history.add_trade(at(5_000));
    history.add_trade(at(4_000));
    history.add_trade(at(5_050));
    let times: Vec<u64> = history.trades.iter().map(|t| t.timestamp_ms).collect();
    assert_eq!(times, vec![5_000, 4_000, 5_050]);
    history.add_trade(at(5_200));
    let times: Vec<u64> = history.trades.iter().map(|t| t.timestamp_ms).collect();
    assert_eq!(times, vec![5_200]);
}

fn message(price: &str, quantity: &str, is_buyer_maker: bool) -> WsAggTrade {
    WsAggTrade {
        event_type: "aggTrade".to_string(),
        event_time: 9,
        symbol: "TESTUSDT".to_string(),
        agg_trade_id: 1,
        price: price.to_string(),
        quantity: quantity.to_string(),
        first_trade_id: 2,
        last_trade_id: 3,
        trade_time: 8,
        is_buyer_maker,
    }
}

#[test]
fn a_message_gives_a_trade() {
    let trade = message("1.5", "2", true).to_trade().unwrap();
    assert_eq!(trade.timestamp_ms, 8);
    assert_eq!(val(trade.price), 1.5);
    assert_eq!(val(trade.quantity), 2.0);
    assert!(!trade.is_buy);
    assert!(message("1.5", "2", false).to_trade().unwrap().is_buy);
}

#[test]
fn a_message_that_is_not_numeric_gives_none() {
    assert!(message("x", "2", true).to_trade().is_none());
    assert!(message("1", "", true).to_trade().is_none());
}
