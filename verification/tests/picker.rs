use cli_ob::binary64::Binary64;
use cli_ob::picker::{
    build_catalog, catalog_symbols, offered, read_ticker, LiveTicker, PickerAction, PickerEvent,
    PickerSharedState, PickerStatus, RestTicker24hr, WsMiniTicker,
};
use cli_ob::ticks::{ExchangeInfoResponse, ExchangeSymbolInfo};

fn val(x: Binary64) -> f64 {
    f64::from_bits(x.to_bits())
}

fn info(symbol: &str, quote: &str, contract: &str, status: &str) -> ExchangeSymbolInfo {
    ExchangeSymbolInfo {
        symbol: symbol.to_string(),
        filters: Vec::new(),
        base_asset: format!("{symbol}-base"),
        quote_asset: quote.to_string(),
        contract_type: contract.to_string(),
        status: status.to_string(),
    }
}

fn exchange() -> ExchangeInfoResponse {
    ExchangeInfoResponse {
        symbols: vec![
            info("AUSDT", "USDT", "PERPETUAL", "TRADING"),
            info("BBUSD", "BUSD", "PERPETUAL", "TRADING"),
            info("CUSDT", "USDT", "CURRENT_QUARTER", "TRADING"),
            info("DUSDT", "USDT", "PERPETUAL", "SETTLING"),
            info("EUSDT", "USDT", "PERPETUAL", "TRADING"),
        ],
    }
}

fn rest(symbol: &str, last: &str, open: &str, volume: &str) -> RestTicker24hr {
    RestTicker24hr {
        symbol: symbol.to_string(),
        last_price: last.to_string(),
        open_price: open.to_string(),
        quote_volume: volume.to_string(),
        close_time: 55,
    }
}

fn mini(symbol: &str, close: &str, open: &str, volume: &str) -> WsMiniTicker {
    WsMiniTicker {
        event_type: "24hrMiniTicker".to_string(),
        event_time: 66,
        symbol: symbol.to_string(),
        close_price: close.to_string(),
        open_price: open.to_string(),
        high_price: String::new(),
        low_price: String::new(),
        base_volume: String::new(),
        quote_volume: volume.to_string(),
    }
}

#[test]
fn a_new_picker_is_loading() {
    let state = PickerSharedState::new();
    assert!(state.catalog.is_empty());
    assert_eq!(state.live_tickers.len(), 0);
    assert_eq!(state.ticker_epoch, 0);
    assert_eq!(state.status, PickerStatus::Loading);
}

#[test]
fn only_trading_usdt_perpetuals_are_offered() {
    let listed: Vec<bool> = exchange().symbols.iter().map(offered).collect();
    assert_eq!(listed, vec![true, false, false, false, true]);
    let catalog = build_catalog(&exchange());
    let names: Vec<&str> = catalog.iter().map(|e| e.symbol.as_str()).collect();
    assert_eq!(names, vec!["AUSDT", "EUSDT"]);
    assert_eq!(catalog[1].base_asset, "EUSDT-base");
    assert_eq!(catalog[1].quote_asset, "USDT");
}

#[test]
fn the_symbols_of_a_catalog() {
    let catalog = build_catalog(&exchange());
    let symbols = catalog_symbols(&catalog);
    assert!(symbols.contains("AUSDT"));
    assert!(symbols.contains("EUSDT"));
    assert!(!symbols.contains("CUSDT"));
    assert!(!symbols.contains(""));
}

#[test]
fn a_ticker_needs_three_numbers() {
    let ticker = read_ticker("110", "100", "7", 9).unwrap();
    assert_eq!(val(ticker.last_price), 110.0);
    assert_eq!(val(ticker.open_24h), 100.0);
    assert_eq!(val(ticker.change_pct_24h), ((110.0 - 100.0) / 100.0) * 100.0);
    assert_eq!(val(ticker.quote_volume_24h), 7.0);
    assert_eq!(ticker.event_time_ms, 9);
    assert!(read_ticker("x", "100", "7", 9).is_none());
    assert!(read_ticker("110", "", "7", 9).is_none());
    assert!(read_ticker("110", "100", "-", 9).is_none());
}

#[test]
fn the_change_is_in_per_cent_of_the_open() {
    let change = |last: &str, open: &str| val(read_ticker(last, open, "0", 0).unwrap().change_pct_24h);
    assert_eq!(change("0.1", "0.3"), ((0.1 - 0.3) / 0.3) * 100.0);
    assert_eq!(change("50000.1", "49999.9"), ((50000.1 - 49999.9) / 49999.9) * 100.0);
    assert_eq!(change("5", "0"), 0.0);
    assert_eq!(change("5", "-2"), 0.0);
    assert_eq!(change("5", "NaN"), 0.0);
}

#[test]
fn a_default_ticker_is_zero() {
    let ticker = LiveTicker::default();
    assert_eq!(val(ticker.last_price), 0.0);
    assert_eq!(val(ticker.quote_volume_24h), 0.0);
    assert_eq!(ticker.event_time_ms, 0);
}

#[test]
fn a_ticker_snapshot_fills_listed_symbols() {
    let mut state = PickerSharedState::new();
    state.set_catalog(&exchange());
    let symbols = catalog_symbols(&state.catalog);
    state.apply_ticker_snapshot(
        &vec![rest("AUSDT", "1", "2", "3"), rest("CUSDT", "1", "2", "3"), rest("EUSDT", "x", "2", "3")],
        &symbols,
    );
    assert_eq!(state.live_tickers.len(), 1);
    let ticker = state.live_tickers.get("AUSDT").unwrap();
    assert_eq!(val(ticker.change_pct_24h), -50.0);
    assert_eq!(ticker.event_time_ms, 55);
    assert_eq!(state.ticker_epoch, 1);
    assert_eq!(state.status, PickerStatus::Loading);
    state.apply_ticker_snapshot(&vec![rest("CUSDT", "1", "2", "3")], &symbols);
    assert_eq!(state.ticker_epoch, 1);
}

#[test]
fn mini_tickers_make_the_feed_live() {
    let mut state = PickerSharedState::new();
    state.set_catalog(&exchange());
    let symbols = catalog_symbols(&state.catalog);
    state.apply_mini_tickers(&vec![mini("BBUSD", "1", "2", "3")], &symbols);
    assert_eq!(state.status, PickerStatus::Loading);
    assert_eq!(state.ticker_epoch, 0);
    state.ticker_epoch = u64::MAX;
    state.apply_mini_tickers(
        &vec![
            mini("EUSDT", "1", "1", "3"),
            mini("AUSDT", "4", "2", "3"),
            mini("EUSDT", "3", "1", "9"),
            mini("EUSDT", "bad", "1", "9"),
        ],
        &symbols,
    );
    assert_eq!(state.status, PickerStatus::Live);
    assert_eq!(state.ticker_epoch, 0);
    let ticker = state.live_tickers.get("EUSDT").unwrap();
    assert_eq!(val(ticker.last_price), 3.0);
    assert_eq!(val(ticker.change_pct_24h), 200.0);
    assert_eq!(val(ticker.quote_volume_24h), 9.0);
    assert_eq!(ticker.event_time_ms, 66);
    assert_eq!(state.live_tickers.len(), 2);
}

#[test]
fn events_show_in_the_status() {
    let mut state = PickerSharedState::new();
    let failed = PickerEvent::CatalogFailed("timed out".to_string());
    assert_eq!(state.on_event(&failed), PickerAction::Stop);
    assert_eq!(state.status, PickerStatus::Error("Catalog fetch failed: timed out".to_string()));
    assert_eq!(state.on_event(&PickerEvent::ConnectFailed), PickerAction::RetryAfterSecs(3));
    assert_eq!(state.status, PickerStatus::Reconnecting);
    assert_eq!(state.on_event(&PickerEvent::Connected), PickerAction::ReadMessages);
    assert_eq!(state.status, PickerStatus::Live);
    assert_eq!(state.on_event(&PickerEvent::Disconnected), PickerAction::RetryAfterSecs(3));
    assert_eq!(state.status, PickerStatus::Stale);
}
