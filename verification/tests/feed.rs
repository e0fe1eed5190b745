use cli_ob::binary64::Binary64;
use cli_ob::config::{default_symbol, read_bin_width, read_symbol};
use cli_ob::feed::{
    catalog_url, day_tickers_url, exchange_info_url, pass_action, route, route_message, server_time_url, snapshot_url, stream_kind, stream_url,
    symbol_for_rest, ticker_payload, ticker_stream_url, FeedAction, FeedEvent, StreamKind,
};
use cli_ob::json::read_member_text;
use cli_ob::state::SharedState;
use cli_ob::sync::SyncStep;
use cli_ob::text::{contains, trim};
use serde_json::Value;

fn val(x: Binary64) -> f64 {
    f64::from_bits(x.to_bits())
}

#[test]
fn streams_are_told_apart_by_name() {
    assert_eq!(stream_kind("btcusdt@depth@100ms"), Some(StreamKind::Depth));
    assert_eq!(stream_kind("btcusdt@aggTrade"), Some(StreamKind::AggTrade));
    assert_eq!(stream_kind("@aggTrade@depth"), Some(StreamKind::Depth));
    assert_eq!(stream_kind("btcusdt@aggtrade"), None);
    assert_eq!(stream_kind("depth"), None);
    assert_eq!(stream_kind(""), None);
}

#[test]
fn messages_are_routed_by_stream() {
    let text = "{\"stream\":\"a@depth@100ms\",\"data\":{\"u\":5}}";
    let (kind, data) = route_message(text).unwrap();
    assert_eq!(kind, StreamKind::Depth);
    assert_eq!(data.get("u").and_then(|u| u.as_u64()), Some(5));
    let text = "{\"data\":[1,2],\"stream\":\"a@aggTrade\"}";
    let (kind, data) = route_message(text).unwrap();
    assert_eq!(kind, StreamKind::AggTrade);
    assert!(data.is_array());
}

#[test]
fn other_messages_are_not_routed() {
    for text in [
        "",
        "nonsense",
        "[]",
        "{\"stream\":\"a@depth\"}",
        "{\"data\":{}}",
        "{\"stream\":7,\"data\":{}}",
        "{\"stream\":\"a@ticker\",\"data\":{}}",
    ] {
        assert!(route_message(text).is_none(), "{text}");
    }
}

#[test]
fn routing_needs_a_name_and_a_payload() {
    let name = || Some("x@depth".to_string());
    assert_eq!(route(name(), Some(Value::Bool(true))), Some((StreamKind::Depth, Value::Bool(true))));
    assert_eq!(route(name(), None), None);
    assert_eq!(route(None, Some(Value::Null)), None);
    assert_eq!(route(Some("x".to_string()), Some(Value::Null)), None);
}

#[test]
fn ticker_messages_hold_a_payload() {
    let data = ticker_payload("{\"stream\":\"!miniTicker@arr\",\"data\":[{\"s\":\"AUSDT\"}]}").unwrap();
    assert_eq!(data[0]["s"], "AUSDT");
    assert!(ticker_payload("{\"stream\":\"!miniTicker@arr\"}").is_none());
    assert!(ticker_payload("{").is_none());
}

#[test]
fn members_are_read_as_text() {
    let value: Value = serde_json::from_str("{\"a\":\"x\",\"b\":1}").unwrap();
    assert_eq!(read_member_text(&value, "a"), Some("x".to_string()));
    assert_eq!(read_member_text(&value, "b"), None);
    assert_eq!(read_member_text(&value, "c"), None);
}

#[test]
fn addresses_of_the_feeds() {
    assert_eq!(
        stream_url("btcusdt"),
        "wss://fstream.binance.com/stream?streams=btcusdt@depth@100ms/btcusdt@aggTrade"
    );
    assert_eq!(
        ticker_stream_url(),
        "wss://fstream.binance.com/stream?streams=!miniTicker@arr"
    );
    assert_eq!(
        snapshot_url("BTCUSDT"),
        "https://fapi.binance.com/fapi/v1/depth?symbol=BTCUSDT&limit=1000"
    );
    assert_eq!(
        exchange_info_url("BTCUSDT"),
        "https://fapi.binance.com/fapi/v1/exchangeInfo?symbol=BTCUSDT"
    );
    assert_eq!(server_time_url(), "https://fapi.binance.com/fapi/v1/time");
    assert_eq!(catalog_url(), "https://fapi.binance.com/fapi/v1/exchangeInfo");
    assert_eq!(day_tickers_url(), "https://fapi.binance.com/fapi/v1/ticker/24hr");
    assert_eq!(symbol_for_rest("btcUsdt"), "BTCUSDT");
}

#[test]
fn feed_events_show_in_the_status() {
    let mut state = SharedState::new();
    let mut line = |event: FeedEvent| {
        state.note(&event);
        state.status_msg.clone()
    };
    assert_eq!(line(FeedEvent::Connecting("ethusdt".to_string())), "Connecting to ETHUSDT...");
    assert_eq!(line(FeedEvent::ConnectFailed("refused".to_string())), "WebSocket error: refused");
    assert_eq!(line(FeedEvent::Connected), "Connected. Fetching snapshot...");
    assert_eq!(
        line(FeedEvent::SnapshotUnreadable("eof".to_string())),
        "Snapshot parse error: eof"
    );
    assert_eq!(
        line(FeedEvent::SnapshotUnavailable("offline".to_string())),
        "Snapshot fetch error: offline"
    );
}

#[test]
fn the_symbol_is_trimmed_and_lower_case() {
    assert_eq!(read_symbol("  EthUSDT \r\n"), "ethusdt");
    assert_eq!(read_symbol("solusdt"), "solusdt");
    assert_eq!(read_symbol("\u{c4}B"), "\u{e4}b");
    assert_eq!(read_symbol(""), "btcusdt");
    assert_eq!(read_symbol(" \t\n"), "btcusdt");
    assert_eq!(default_symbol(String::new()), "btcusdt");
    assert_eq!(default_symbol("X".to_string()), "X");
}

#[test]
fn the_bin_width_is_above_zero() {
    assert_eq!(val(read_bin_width(" 0.001\n")), 0.001);
    assert_eq!(val(read_bin_width("100")), 100.0);
    assert_eq!(val(read_bin_width("")), 1.0);
    assert_eq!(val(read_bin_width("ten")), 1.0);
    assert_eq!(val(read_bin_width("0")), 1.0);
    assert_eq!(val(read_bin_width("-0.0")), 1.0);
    assert_eq!(val(read_bin_width("-5")), 1.0);
    assert!(read_bin_width("nan").is_not_a_number());
}

#[test]
fn text_is_searched_and_trimmed() {
    for (s, pattern) in [("", ""), ("a", ""), ("", "a"), ("abcab", "cab"), ("aab", "ab"), ("ab", "abc")] {
        assert_eq!(contains(s, pattern), s.contains(pattern), "{s} {pattern}");
    }
    for s in ["", " ", "a", " a b ", "\u{a0}x\u{2003}", "\u{200b}x", "\t\u{85}\u{3000}", "x\u{1680}"] {
        assert_eq!(trim(s), s.trim());
    }
}

#[test]
fn white_space_is_trimmed_as_everywhere() {
    for code in 0..=0x10_ffff_u32 {
        if let Some(c) = char::from_u32(code) {
            let s = c.to_string();
            assert_eq!(trim(&s).is_empty(), c.is_whitespace(), "{code:x}");
        }
    }
}

#[test]
fn failures_end_the_feed() {
    let text = || "x".to_string();
    assert_eq!(FeedEvent::Connecting(text()).action(), FeedAction::GoOn);
    assert_eq!(FeedEvent::Connected.action(), FeedAction::GoOnAfterMillis(300));
    assert_eq!(FeedEvent::ConnectFailed(text()).action(), FeedAction::Stop);
    assert_eq!(FeedEvent::SnapshotUnreadable(text()).action(), FeedAction::Stop);
    let mut state = SharedState::new();
    assert_eq!(state.note(&FeedEvent::SnapshotUnavailable(text())), FeedAction::Stop);
}

#[test]
fn only_a_gap_ends_a_feed_in_sync() {
    assert_eq!(SyncStep::Gap.action(), FeedAction::RaiseFlagAndStopAfterSecs(1));
    for step in [
        SyncStep::Stale,
        SyncStep::Waiting,
        SyncStep::Bridged,
        SyncStep::Applied,
        SyncStep::Ignored,
    ] {
        assert_eq!(step.action(), FeedAction::GoOn);
    }
}

#[test]
fn passes_go_on_until_the_flag_is_raised() {
    assert_eq!(pass_action(false), FeedAction::GoOnAfterMillis(5));
    assert_eq!(pass_action(true), FeedAction::Stop);
}
