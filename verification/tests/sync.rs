use cli_ob::binary64::Binary64;
use cli_ob::book::{RestDepthResponse, WsDepthUpdate};
use cli_ob::clock::to_signed;
use cli_ob::micro::MicroCall;
use cli_ob::state::{apply_depth_update, SharedState};
use cli_ob::sync::{
    can_bridge_snapshot, is_contiguous, latency_in_range, measure_clock_offset, measure_latency,
    offset_in_range, DepthSync, ServerTimeResponse, SyncStep,
};

fn num(x: f64) -> Binary64 {
    Binary64::from_bits(x.to_bits())
}

fn val(x: Binary64) -> f64 {
    f64::from_bits(x.to_bits())
}

fn make_depth_update(
    first_update_id: u64,
    final_update_id: u64,
    prev_final_update_id: u64,
) -> WsDepthUpdate {
    WsDepthUpdate {
        event_type: "depthUpdate".to_string(),
        event_time: 0,
        transaction_time: 0,
        symbol: "TESTUSDT".to_string(),
        first_update_id,
        final_update_id,
        prev_final_update_id,
        bids: Vec::new(),
        asks: Vec::new(),
    }
}

fn with_bid(mut update: WsDepthUpdate, price: &str, quantity: &str) -> WsDepthUpdate {
    update.bids = vec![[price.to_string(), quantity.to_string()]];
    update
}

fn started(clock_offset: Option<i64>) -> (SharedState, DepthSync) {
    let mut state = SharedState::new();
    state.connected = true;
    state.latency_ms = 12;
    state.depth_epoch = 5;
    state.depth_slice_epoch = 6;
    state.trade_epoch = 7;
    state.micro_metrics.fill_kill_epoch = 8;
    state.micro_metrics.cumulative_epoch = 9;
    let snapshot = RestDepthResponse {
        last_update_id: 110,
        bids: vec![["99".to_string(), "1".to_string()]],
        asks: vec![["101".to_string(), "2".to_string()]],
    };
    let sync = DepthSync::start(&mut state, &snapshot, clock_offset, num(0.5), 1);
    (state, sync)
}

fn best_bid(state: &SharedState) -> Option<(f64, f64)> {
    state.order_book.best_bid().map(|(p, q)| (val(p), val(q)))
}

#[test]
fn can_bridge_when_final_equals_snapshot() {
    let update = make_depth_update(100, 110, 99);
    assert!(can_bridge_snapshot(&update, 110));
}

#[test]
fn can_bridge_when_final_exceeds_snapshot() {
    let update = make_depth_update(100, 120, 99);
    assert!(can_bridge_snapshot(&update, 110));
}

#[test]
fn cannot_bridge_when_final_below_snapshot() {
    let update = make_depth_update(100, 109, 99);
    assert!(!can_bridge_snapshot(&update, 110));
}

#[test]
fn cannot_bridge_when_first_after_snapshot() {
    let update = make_depth_update(111, 120, 110);
    assert!(!can_bridge_snapshot(&update, 110));
}

#[test]
fn contiguous_only_when_prev_equals_last_u() {
    let update = make_depth_update(0, 0, 200);
    assert!(is_contiguous(&update, 200));
}

#[test]
fn not_contiguous_when_prev_greater_than_last_u() {
    let update = make_depth_update(0, 0, 201);
    assert!(!is_contiguous(&update, 200));
}

#[test]
fn not_contiguous_when_prev_less_than_last_u() {
    let update = make_depth_update(0, 0, 199);
    assert!(!is_contiguous(&update, 200));
}

#[test]
fn depth_epoch_increments_when_depth_update_applied() {
    let mut state = SharedState::new();
    state.tick_size = num(1.0);
    state.order_book.bids.insert(num(100.0), num(1.0));
    state.order_book.asks.insert(num(101.0), num(1.0));

    let mut update = make_depth_update(1, 2, 0);
    update.event_time = 10;
    update.bids = vec![["100.0".to_string(), "0.0".to_string()]];

    apply_depth_update(&mut state, &update);

    assert_eq!(state.depth_epoch, 1);
}

fn told(state: &mut SharedState) -> Vec<MicroCall> {
    state.micro_metrics.take_calls()
}

#[test]
fn measures_are_told_of_an_update_once() {
    let mut state = SharedState::new();
    state.tick_size = num(0.25);
    state.depth_epoch = 41;
    let mut update = make_depth_update(1, 2, 0);
    update.event_time = 10;
    apply_depth_update(&mut state, &update);
    let calls = told(&mut state);
    assert_eq!(calls.len(), 1);
    match calls[0] {
        MicroCall::DepthEpochAdvance { event_time, depth_epoch, tick_size } => {
            assert_eq!((event_time, depth_epoch, val(tick_size)), (10, 42, 0.25));
        }
        other => panic!("{other:?}"),
    }
}

#[test]
fn measures_are_told_of_each_step() {
    let (mut state, mut sync) = started(None);
    assert!(matches!(told(&mut state)[..], [MicroCall::ResetFillKill]));
    sync.take_live(&mut state, &make_depth_update(111, 115, 110), 0);
    assert!(told(&mut state).is_empty());
    sync.take_live(&mut state, &make_depth_update(105, 112, 104), 0);
    assert!(matches!(
        told(&mut state)[..],
        [MicroCall::DepthEpochAdvance { depth_epoch: 1, .. }, MicroCall::ResetFillKill]
    ));
    sync.take_live(&mut state, &make_depth_update(113, 118, 112), 0);
    assert!(matches!(told(&mut state)[..], [MicroCall::DepthEpochAdvance { depth_epoch: 2, .. }]));
    sync.take_live(&mut state, &make_depth_update(130, 131, 129), 0);
    assert!(told(&mut state).is_empty());
}

#[test]
fn the_first_update_that_bridges_is_taken() {
    let (mut state, mut sync) = started(None);
    let first = with_bid(make_depth_update(100, 111, 99), "98", "1");
    let second = with_bid(make_depth_update(100, 112, 99), "98", "2");
    assert_eq!(sync.take_live(&mut state, &make_depth_update(90, 95, 89), 0), SyncStep::Waiting);
    assert_eq!(sync.take_live(&mut state, &first, 0), SyncStep::Bridged);
    assert_eq!(sync.take_live(&mut state, &second, 0), SyncStep::Gap);
    assert_eq!(sync.last_final_update_id, 111);
}

#[test]
fn what_applies_is_known_before() {
    let (mut state, mut sync) = started(None);
    let bridge = make_depth_update(105, 112, 104);
    assert!(!sync.applies_live(&bridge));
    sync.take_live(&mut state, &bridge, 0);
    assert!(!sync.applies_live(&bridge));
    assert!(sync.applies_live(&make_depth_update(113, 118, 112)));
    assert!(!sync.applies_live(&make_depth_update(114, 118, 113)));
}

#[test]
fn the_depth_epoch_starts_over_after_the_largest() {
    let mut state = SharedState::new();
    state.depth_epoch = u64::MAX;
    apply_depth_update(&mut state, &make_depth_update(1, 2, 0));
    assert_eq!(state.depth_epoch, 0);
}

#[test]
fn a_snapshot_starts_the_sequence() {
    let (state, sync) = started(Some(-40));
    assert_eq!(best_bid(&state), Some((99.0, 1.0)));
    assert_eq!(state.order_book.last_update_id, 110);
    assert_eq!(state.order_book.clock_offset, -40);
    assert_eq!(state.latency_ms, 12);
    assert_eq!(val(state.tick_size), 0.5);
    assert_eq!(state.price_decimals, 1);
    assert_eq!((state.depth_epoch, state.depth_slice_epoch, state.trade_epoch), (0, 0, 0));
    assert_eq!((state.fill_kill_epoch, state.cumulative_epoch), (8, 9));
    assert!(!state.connected);
    assert_eq!(state.status_msg, "Syncing...");
    assert!(!sync.synced);
    assert_eq!(sync.snapshot_update_id, 110);
    assert_eq!(sync.last_final_update_id, 0);
}

#[test]
fn a_start_without_a_clock_has_no_latency() {
    let (state, _) = started(None);
    assert_eq!(state.order_book.clock_offset, 0);
    assert_eq!(state.latency_ms, -1);
}

#[test]
fn buffered_updates_bridge_and_follow() {
    let (mut state, mut sync) = started(Some(0));
    let stale = with_bid(make_depth_update(90, 109, 89), "98", "7");
    assert_eq!(sync.take_buffered(&mut state, &stale), SyncStep::Stale);
    let late = with_bid(make_depth_update(111, 115, 110), "98", "7");
    assert_eq!(sync.take_buffered(&mut state, &late), SyncStep::Waiting);
    assert_eq!(best_bid(&state), Some((99.0, 1.0)));
    let bridge = with_bid(make_depth_update(105, 112, 104), "99.5", "3");
    assert_eq!(sync.take_buffered(&mut state, &bridge), SyncStep::Bridged);
    assert_eq!(best_bid(&state), Some((99.5, 3.0)));
    let skipped = with_bid(make_depth_update(114, 116, 113), "100", "3");
    assert_eq!(sync.take_buffered(&mut state, &skipped), SyncStep::Ignored);
    let next = with_bid(make_depth_update(113, 118, 112), "99.5", "0");
    assert_eq!(sync.take_buffered(&mut state, &next), SyncStep::Applied);
    assert_eq!(best_bid(&state), Some((99.0, 1.0)));
    assert_eq!(sync.last_final_update_id, 118);
    assert_eq!(state.order_book.last_update_id, 118);
    assert_eq!(state.depth_epoch, 2);
    assert!(!state.connected);
    sync.finish_buffered(&mut state);
    assert!(state.connected);
    assert_eq!(state.status_msg, "Live");
}

#[test]
fn a_feed_that_is_not_bridged_stays_in_sync() {
    let (mut state, sync) = started(None);
    sync.finish_buffered(&mut state);
    assert!(!state.connected);
    assert_eq!(state.status_msg, "Syncing...");
}

#[test]
fn live_updates_bridge_and_follow() {
    let (mut state, mut sync) = started(Some(100));
    let late = make_depth_update(111, 115, 110);
    assert_eq!(sync.take_live(&mut state, &late, 0), SyncStep::Waiting);
    let bridge = make_depth_update(105, 112, 104);
    assert_eq!(sync.take_live(&mut state, &bridge, 0), SyncStep::Bridged);
    assert!(state.connected);
    assert_eq!(state.status_msg, "Live");
    assert_eq!(state.latency_ms, 12);
    let mut next = with_bid(make_depth_update(113, 118, 112), "99.5", "4");
    next.event_time = 1_000;
    assert_eq!(sync.take_live(&mut state, &next, 1_130), SyncStep::Applied);
    assert_eq!(state.latency_ms, 30);
    assert_eq!(state.order_book.last_event_time, 1_000);
    assert_eq!(best_bid(&state), Some((99.5, 4.0)));
    assert_eq!(sync.take_live(&mut state, &next, 1_140), SyncStep::Stale);
    assert_eq!(state.latency_ms, 30);
    assert_eq!(state.depth_epoch, 2);
}

#[test]
fn a_gap_disconnects_and_leaves_the_book() {
    let (mut state, mut sync) = started(None);
    assert_eq!(sync.take_live(&mut state, &make_depth_update(105, 112, 104), 0), SyncStep::Bridged);
    assert_eq!(state.status_msg, "Live (latency N/A)");
    let gap = with_bid(make_depth_update(120, 125, 119), "100", "4");
    assert_eq!(sync.take_live(&mut state, &gap, 0), SyncStep::Gap);
    assert!(!state.connected);
    assert_eq!(state.status_msg, "Desynced (gap). Reconnecting...");
    assert_eq!(best_bid(&state), Some((99.0, 1.0)));
    assert_eq!(sync.last_final_update_id, 112);
}

#[test]
fn a_contiguous_feed_is_taken_whole() {
    let (mut state, mut sync) = started(Some(0));
    let mut last: u64 = 104;
    for (i, end) in [110_u64, 113, 114, 120].iter().enumerate() {
        let update = with_bid(make_depth_update(last + 1, *end, last), "98", "5");
        let wanted = if i == 0 { SyncStep::Bridged } else { SyncStep::Applied };
        assert_eq!(sync.take_live(&mut state, &update, 5), wanted);
        last = *end;
    }
    assert_eq!(sync.last_final_update_id, 120);
    assert_eq!(state.depth_epoch, 4);
}

#[test]
fn the_offset_is_the_middle_less_the_server_time() {
    let offset = |before, after, server_time| {
        let response = ServerTimeResponse { server_time };
        assert!(offset_in_range(before, after, &response));
        measure_clock_offset(before, after, &response)
    };
    assert_eq!(offset(1_000, 1_100, 1_040), 10);
    assert_eq!(offset(1_000, 1_101, 1_060), -10);
    assert_eq!(offset(-3, 0, 0), -1);
    assert_eq!(offset(0, 0, u64::MAX), 1);
    assert_eq!(offset(i64::MIN, 0, 0), i64::MIN / 2);
}

#[test]
fn an_offset_can_be_out_of_range() {
    let zero = ServerTimeResponse { server_time: 0 };
    assert!(!offset_in_range(i64::MAX, 1, &zero));
    let far = ServerTimeResponse { server_time: 1 << 63 };
    assert!(!offset_in_range(0, 2, &far));
}

#[test]
fn latency_is_at_least_zero() {
    assert_eq!(measure_latency(1_000, 900, Some(40)), 60);
    assert_eq!(measure_latency(1_000, 990, Some(40)), 0);
    assert_eq!(measure_latency(1_000, 990, None), -1);
    assert!(latency_in_range(1_000, 990, None));
    assert!(latency_in_range(1_000, 900, Some(40)));
    assert!(!latency_in_range(i64::MIN, 1, Some(0)));
    assert!(!latency_in_range(0, 0, Some(i64::MIN)));
}

#[test]
fn a_calibrated_clock_gives_the_age_of_an_event() {
    let (ahead, one_way, age) = (250, 30, 17);
    let server_time: u64 = 1_700_000_000_000;
    let middle = server_time as i64 + ahead;
    let response = ServerTimeResponse { server_time };
    let offset = measure_clock_offset(middle - one_way, middle + one_way, &response);
    assert_eq!(offset, ahead);
    let event: u64 = 1_700_000_005_000;
    assert_eq!(measure_latency(event as i64 + ahead + age, event, Some(offset)), age);
}

#[test]
fn counts_read_as_twos_complement() {
    for count in [0, 1, (1 << 63) - 1, 1 << 63, u64::MAX - 1, u64::MAX] {
        assert_eq!(to_signed(count), count as i64);
    }
}
