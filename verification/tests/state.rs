use cli_ob::binary64::Binary64;
use cli_ob::clock::{current_time_ms_u64, low_u64, reading_ms};
use cli_ob::depth::{DepthHistory, DepthSlice};
use cli_ob::micro::{MicroCall, MicroMetrics};
use cli_ob::state::SharedState;
use cli_ob::trades::Trade;
use std::time::{Duration, SystemTime};

fn num(x: f64) -> Binary64 {
    Binary64::from_bits(x.to_bits())
}

fn val(x: Binary64) -> f64 {
    f64::from_bits(x.to_bits())
}

fn slice(timestamp_ms: u64) -> DepthSlice {
    DepthSlice { timestamp_ms, levels: Vec::new(), bids_len: 0 }
}

fn times(history: &DepthHistory) -> Vec<u64> {
    history.slices.iter().map(|s| s.timestamp_ms).collect()
}

fn trade(timestamp_ms: u64) -> Trade {
    Trade { timestamp_ms, price: num(1.0), quantity: num(2.0), is_buy: false }
}

#[test]
fn a_new_state_is_empty() {
    let state = SharedState::new();
    assert_eq!(state.order_book.bids.len() + state.order_book.asks.len(), 0);
    assert_eq!(state.trade_history.window_ms, 300_000);
    assert_eq!(state.depth_history.max_slices, 600);
    assert_eq!(state.depth_history.sample_interval_ms, 500);
    assert_eq!(state.snapshot_book_epoch, u64::MAX);
    assert_eq!(state.snapshot_trade_epoch, u64::MAX);
    assert!(state.snapshot_bids.is_empty() && state.snapshot_depth_slices.is_empty());
    assert!(!state.connected);
    assert_eq!(state.status_msg, "Initializing...");
    assert_eq!(state.latency_ms, -1);
    assert_eq!(val(state.tick_size), 0.1);
    assert_eq!(state.price_decimals, 1);
}

#[test]
fn micro_epochs_are_taken_over() {
    let mut state = SharedState::new();
    state.micro_metrics.fill_kill_epoch = 3;
    state.micro_metrics.cumulative_epoch = 4;
    state.sync_micro_epochs();
    assert_eq!((state.fill_kill_epoch, state.cumulative_epoch), (3, 4));
}

#[test]
fn a_history_keeps_the_newest_slices() {
    let mut history = DepthHistory::new();
    history.max_slices = 3;
    for time in 1..=5 {
        history.push(slice(time));
        assert!(history.slices.len() <= 3);
        assert_eq!(history.slices.back().map(|s| s.timestamp_ms), Some(time));
    }
    assert_eq!(times(&history), vec![3, 4, 5]);
    history.max_slices = 0;
    history.push(slice(6));
    assert!(history.slices.is_empty());
}

#[test]
fn a_slice_shows_bids_then_asks() {
    let mut state = SharedState::new();
    state.order_book.bids.insert(num(99.0), num(1.0));
    state.order_book.bids.insert(num(98.0), num(2.0));
    state.order_book.asks.insert(num(101.0), num(3.0));
    state.order_book.asks.insert(num(100.0), num(4.0));
    let mut history = DepthHistory::new();
    history.max_slices = 1;
    history.push(slice(1));
    history.push_from_book(&state.order_book, 7);
    assert_eq!(times(&history), vec![7]);
    let shown: Vec<(f64, f64)> =
        history.slices[0].levels.iter().map(|(p, q)| (val(*p), val(*q))).collect();
    assert_eq!(shown, vec![(98.0, 2.0), (99.0, 1.0), (100.0, 4.0), (101.0, 3.0)]);
    assert_eq!(history.slices[0].bids_len, 2);
}

#[test]
fn samples_are_an_interval_apart() {
    let mut state = SharedState::new();
    state.micro_metrics.fill_kill_epoch = 5;
    state.sample_depth(false, 10_000);
    assert!(state.depth_history.slices.is_empty());
    assert_eq!(state.fill_kill_epoch, 0);
    state.sample_depth(true, 499);
    assert!(state.depth_history.slices.is_empty());
    assert_eq!(state.fill_kill_epoch, 5);
    state.sample_depth(true, 500);
    state.sample_depth(true, 999);
    state.sample_depth(true, 100);
    state.sample_depth(true, 1_000);
    assert_eq!(times(&state.depth_history), vec![500, 1_000]);
    assert_eq!(state.depth_slice_epoch, 2);
    assert_eq!(state.depth_history.last_sample_ms, 1_000);
}

#[test]
fn trades_are_recorded_in_batches() {
    let mut state = SharedState::new();
    state.micro_metrics.cumulative_epoch = 6;
    state.record_trades(true, Vec::new());
    assert_eq!((state.trade_epoch, state.cumulative_epoch), (0, 0));
    state.record_trades(true, vec![trade(1), trade(2), trade(400_000)]);
    assert_eq!((state.trade_epoch, state.cumulative_epoch), (1, 6));
    let kept: Vec<u64> = state.trade_history.trades.iter().map(|t| t.timestamp_ms).collect();
    assert_eq!(kept, vec![400_000]);
}

#[test]
fn measures_are_told_of_trades_in_sync() {
    let mut state = SharedState::new();
    state.depth_epoch = 7;
    state.tick_size = num(0.5);
    state.record_trades(false, vec![trade(1)]);
    assert!(state.micro_metrics.calls.is_empty());
    state.record_trades(true, vec![trade(2), trade(3)]);
    let calls = state.micro_metrics.take_calls();
    assert_eq!(calls.len(), 2);
    for (call, time) in calls.iter().zip([2_u64, 3]) {
        match call {
            MicroCall::Trade { trade, depth_epoch, tick_size } => {
                assert_eq!(trade.timestamp_ms, time);
                assert_eq!((*depth_epoch, val(*tick_size)), (7, 0.5));
            }
            other => panic!("{other:?}"),
        }
    }
    assert!(state.micro_metrics.calls.is_empty());
}

#[test]
fn measures_are_told_the_time_of_each_pass() {
    let mut state = SharedState::new();
    state.depth_epoch = 4;
    state.sample_depth(false, 10);
    assert!(state.micro_metrics.calls.is_empty());
    state.sample_depth(true, 20);
    let calls = state.micro_metrics.take_calls();
    assert_eq!(calls.len(), 2);
    match calls[0] {
        MicroCall::FlushFillKillIfNeeded { now_ms, depth_epoch, tick_size } => {
            assert_eq!((now_ms, depth_epoch, val(tick_size)), (20, 4, 0.1));
        }
        other => panic!("{other:?}"),
    }
    assert!(matches!(calls[1], MicroCall::SampleCumulative { now_ms: 20 }));
}

#[test]
fn calls_are_fetched_in_order_and_once() {
    let mut metrics = MicroMetrics::default();
    metrics.fill_kill_epoch = 3;
    metrics.reset_fill_kill();
    metrics.sample_cumulative(9);
    let calls = metrics.take_calls();
    assert!(matches!(calls[0], MicroCall::ResetFillKill));
    assert!(matches!(calls[1], MicroCall::SampleCumulative { now_ms: 9 }));
    assert!(metrics.take_calls().is_empty());
    assert_eq!((metrics.fill_kill_epoch, metrics.cumulative_epoch), (3, 0));
}

#[test]
fn batches_in_turn_are_one_batch() {
    let mut apart = SharedState::new();
    apart.trade_history.window_ms = 10;
    let mut joined = SharedState::new();
    joined.trade_history.window_ms = 10;
    apart.record_trades(true, vec![trade(1), trade(9)]);
    apart.record_trades(true, vec![trade(15), trade(3), trade(20)]);
    joined.record_trades(true, vec![trade(1), trade(9), trade(15), trade(3), trade(20)]);
    let list = |s: &SharedState| -> Vec<u64> {
        s.trade_history.trades.iter().map(|t| t.timestamp_ms).collect()
    };
    assert_eq!(list(&apart), list(&joined));
    assert_eq!(list(&joined), vec![15, 3, 20]);
}

#[test]
fn the_clock_counts_milliseconds() {
    let at = SystemTime::UNIX_EPOCH + Duration::from_micros(1_234_567);
    assert_eq!(reading_ms(&at), Some(1_234));
    assert_eq!(reading_ms(&SystemTime::UNIX_EPOCH), Some(0));
    assert_eq!(reading_ms(&(SystemTime::UNIX_EPOCH - Duration::from_secs(1))), None);
}

#[test]
fn the_clock_is_past_the_epoch() {
    let before = SystemTime::now().duration_since(SystemTime::UNIX_EPOCH).unwrap().as_millis();
    let now = current_time_ms_u64().unwrap();
    assert!(now as u128 >= before);
}

#[test]
fn low_bits_of_a_count() {
    assert_eq!(low_u64(5), 5);
    assert_eq!(low_u64((7 << 64) + 9), 9);
    assert_eq!(low_u64(u128::MAX), u64::MAX);
}
