//! The state that the feed fills and the viewer reads.

use crate::binary64::Binary64;
use crate::book::{updated_side, OrderBook, WsDepthUpdate};
use crate::depth::{newest, shows_book, DepthHistory, DepthSlice};
use crate::levels::PriceLevel;
use crate::micro::{trade_calls, MicroCall, MicroMetrics};
use crate::ticks::{default_tick, DEFAULT_PRICE_DECIMALS, DEFAULT_TICK_BITS};
use crate::trades::{drop_older, window_start, Trade, TradeHistory};
use std::sync::Arc;
use vstd::prelude::*;

verus! {

/// Shared state between the feed and the viewer.  The series that the microstructure
/// measures yield are kept where those are taken.
pub struct SharedState {
    pub order_book: OrderBook,
    pub trade_history: TradeHistory,
    pub depth_history: DepthHistory,
    pub depth_epoch: u64,
    pub depth_slice_epoch: u64,
    pub trade_epoch: u64,
    pub fill_kill_epoch: u64,
    pub cumulative_epoch: u64,
    pub micro_metrics: MicroMetrics,
    pub snapshot_trade_epoch: u64,
    pub snapshot_depth_slice_epoch: u64,
    pub snapshot_fill_kill_epoch: u64,
    pub snapshot_cumulative_epoch: u64,
    pub snapshot_book_epoch: u64,
    pub snapshot_bids: Arc<Vec<(Binary64, Binary64)>>,
    pub snapshot_asks: Arc<Vec<(Binary64, Binary64)>>,
    pub snapshot_trades: Arc<Vec<(u64, Binary64, Binary64, bool)>>,
    pub snapshot_depth_slices: Arc<Vec<Arc<DepthSlice>>>,
    pub connected: bool,
    pub status_msg: String,
    pub latency_ms: i64,
    pub tick_size: Binary64,
    pub price_decimals: usize,
}

/// The epoch after `epoch`, from the largest back to zero.
pub open spec fn next_epoch(epoch: u64) -> u64 {
    if epoch == u64::MAX {
        0
    } else {
        (epoch + 1) as u64
    }
}

/// `after` is `before` with an update applied.
pub open spec fn book_follows(before: OrderBook, update: WsDepthUpdate, after: OrderBook) -> bool {
    &&& before.wf() ==> after.wf()
    &&& after.bids@ == updated_side(before.bids@, update.bids@)
    &&& after.asks@ == updated_side(before.asks@, update.asks@)
    &&& after.last_update_id == update.final_update_id
    &&& after.last_event_time == update.event_time
    &&& after.clock_offset == before.clock_offset
}

/// The trades after more have been added, each dropping what it leaves outside the window.
pub open spec fn with_trades(trades: Seq<Trade>, window_ms: u64, added: Seq<Trade>) -> Seq<Trade>
    decreases added.len(),
{
    if added.len() == 0 {
        trades
    } else {
        drop_older(
            with_trades(trades, window_ms, added.drop_last()).push(added.last()),
            window_start(added.last().timestamp_ms, window_ms),
        )
    }
}

/// What the measures are told of an update: its time, the epoch that it leads to and
/// the price step.
pub open spec fn depth_call(state: SharedState, update: WsDepthUpdate) -> MicroCall {
    MicroCall::DepthEpochAdvance {
        event_time: update.event_time,
        depth_epoch: next_epoch(state.depth_epoch),
        tick_size: state.tick_size,
    }
}

/// Applies an update to the book, counts it, and tells the measures of it.
pub fn apply_depth_update(state: &mut SharedState, update: &WsDepthUpdate)
    ensures
        book_follows(old(state).order_book, *update, final(state).order_book),
        final(state).micro_metrics.called(
            old(state).micro_metrics,
            seq![depth_call(*old(state), *update)],
        ),
        *final(state) == (SharedState {
            order_book: final(state).order_book,
            depth_epoch: next_epoch(old(state).depth_epoch),
            micro_metrics: final(state).micro_metrics,
            ..*old(state)
        }),
{
    let tick_size = state.tick_size;
    state.order_book.apply_update(update);
    state.depth_epoch = state.depth_epoch.wrapping_add(1);
    state.micro_metrics.on_depth_epoch_advance(update.event_time, state.depth_epoch, tick_size);
}

impl SharedState {
    pub fn new() -> (state: SharedState)
        ensures
            state.order_book.wf(),
            state.order_book.bids@ == Map::<u64, PriceLevel>::empty(),
            state.order_book.asks@ == Map::<u64, PriceLevel>::empty(),
            state.order_book.last_update_id == 0,
            state.order_book.last_event_time == 0,
            state.order_book.clock_offset == 0,
            state.trade_history.trades@ == Seq::<Trade>::empty(),
            state.trade_history.window_ms == 300_000,
            state.depth_history.slices@ == Seq::<Arc<DepthSlice>>::empty(),
            state.depth_history.max_slices == 600,
            state.depth_history.sample_interval_ms == 500,
            state.depth_history.last_sample_ms == 0,
            state.depth_epoch == 0,
            state.depth_slice_epoch == 0,
            state.trade_epoch == 0,
            state.fill_kill_epoch == 0,
            state.cumulative_epoch == 0,
            state.micro_metrics.fill_kill_epoch == 0,
            state.micro_metrics.cumulative_epoch == 0,
            state.micro_metrics.calls@ == Seq::<MicroCall>::empty(),
            state.snapshot_trade_epoch == u64::MAX,
            state.snapshot_depth_slice_epoch == u64::MAX,
            state.snapshot_fill_kill_epoch == u64::MAX,
            state.snapshot_cumulative_epoch == u64::MAX,
            state.snapshot_book_epoch == u64::MAX,
            state.snapshot_bids@.len() == 0,
            state.snapshot_asks@.len() == 0,
            state.snapshot_trades@.len() == 0,
            state.snapshot_depth_slices@.len() == 0,
            !state.connected,
            state.status_msg@ == "Initializing..."@,
            state.latency_ms == -1,
            state.tick_size == default_tick(),
            state.price_decimals == DEFAULT_PRICE_DECIMALS,
    {
        SharedState {
            order_book: OrderBook::new(),
            trade_history: TradeHistory::new(300_000),
            depth_history: DepthHistory::new(),
            depth_epoch: 0,
            depth_slice_epoch: 0,
            trade_epoch: 0,
            fill_kill_epoch: 0,
            cumulative_epoch: 0,
            micro_metrics: MicroMetrics::default(),
            snapshot_trade_epoch: u64::MAX,
            snapshot_depth_slice_epoch: u64::MAX,
            snapshot_fill_kill_epoch: u64::MAX,
            snapshot_cumulative_epoch: u64::MAX,
            snapshot_book_epoch: u64::MAX,
            snapshot_bids: Arc::new(Vec::new()),
            snapshot_asks: Arc::new(Vec::new()),
            snapshot_trades: Arc::new(Vec::new()),
            snapshot_depth_slices: Arc::new(Vec::new()),
            connected: false,
            status_msg: "Initializing...".to_owned(),
            latency_ms: -1,
            tick_size: Binary64::from_bits(DEFAULT_TICK_BITS),
            price_decimals: DEFAULT_PRICE_DECIMALS,
        }
    }

    /// Takes over the epochs of the microstructure series.
    pub fn sync_micro_epochs(&mut self)
        ensures
            *final(self) == (SharedState {
                fill_kill_epoch: old(self).micro_metrics.fill_kill_epoch,
                cumulative_epoch: old(self).micro_metrics.cumulative_epoch,
                ..*old(self)
            }),
    {
        self.fill_kill_epoch = self.micro_metrics.fill_kill_epoch;
        self.cumulative_epoch = self.micro_metrics.cumulative_epoch;
    }

    /// Adds the trades that have arrived; when there are any, the trade epoch moves on.
    /// Once in sync, the measures are told of each.
    pub fn record_trades(&mut self, synced: bool, trades: Vec<Trade>)
        ensures
            trades@.len() == 0 ==> *final(self) == *old(self),
            trades@.len() > 0 ==> {
                &&& final(self).trade_history.trades@ == with_trades(
                    old(self).trade_history.trades@,
                    old(self).trade_history.window_ms,
                    trades@,
                )
                &&& final(self).trade_history.window_ms == old(self).trade_history.window_ms
                &&& final(self).micro_metrics.called(
                    old(self).micro_metrics,
                    if synced {
                        trade_calls(trades@, old(self).depth_epoch, old(self).tick_size)
                    } else {
                        Seq::empty()
                    },
                )
                &&& *final(self) == (SharedState {
                    trade_history: final(self).trade_history,
                    micro_metrics: final(self).micro_metrics,
                    trade_epoch: next_epoch(old(self).trade_epoch),
                    fill_kill_epoch: old(self).micro_metrics.fill_kill_epoch,
                    cumulative_epoch: old(self).micro_metrics.cumulative_epoch,
                    ..*old(self)
                })
            },
    {
        if trades.len() == 0 {
            return;
        }
        let depth_epoch = self.depth_epoch;
        let tick_size = self.tick_size;
        let mut i: usize = 0;
        let ghost window = self.trade_history.window_ms;
        let ghost before = self.trade_history.trades@;
        let ghost told = if synced {
            trade_calls(trades@, depth_epoch, tick_size)
        } else {
            Seq::empty()
        };
        proof {
            assert(trades@.take(0) =~= Seq::<Trade>::empty());
            assert(self.micro_metrics.calls@ =~= old(self).micro_metrics.calls@
                + Seq::<MicroCall>::empty());
            assert(told.take(0) =~= Seq::<MicroCall>::empty());
        }
        while i < trades.len()
            invariant
                i <= trades@.len(),
                window == old(self).trade_history.window_ms,
                before == old(self).trade_history.trades@,
                depth_epoch == old(self).depth_epoch,
                tick_size == old(self).tick_size,
                told == if synced {
                    trade_calls(trades@, depth_epoch, tick_size)
                } else {
                    Seq::empty()
                },
                self.trade_history.window_ms == window,
                self.trade_history.trades@ == with_trades(before, window, trades@.take(i as int)),
                self.micro_metrics.called(
                    old(self).micro_metrics,
                    if synced {
                        told.take(i as int)
                    } else {
                        told
                    },
                ),
                *self == (SharedState {
                    trade_history: self.trade_history,
                    micro_metrics: self.micro_metrics,
                    ..*old(self)
                }),
            decreases trades.len() - i,
        {
            assert(trades@.take(i + 1).drop_last() =~= trades@.take(i as int));
            if synced {
                self.micro_metrics.on_trade(trades[i], depth_epoch, tick_size);
                assert(self.micro_metrics.calls@ =~= old(self).micro_metrics.calls@ + told.take(
                    i + 1,
                ));
            }
            self.trade_history.add_trade(trades[i]);
            i = i + 1;
        }
        proof {
            assert(trades@.take(i as int) =~= trades@);
            if synced {
                assert(told.take(i as int) =~= told);
            }
        }
        self.trade_epoch = self.trade_epoch.wrapping_add(1);
        self.sync_micro_epochs();
    }

    /// Whether a depth sample is due at `now_ms`.
    pub open spec fn sample_due(self, now_ms: u64) -> bool {
        window_start(now_ms, self.depth_history.last_sample_ms)
            >= self.depth_history.sample_interval_ms
    }

    /// What the measures are told at a pass once in sync.
    pub open spec fn pass_calls(self, now_ms: u64) -> Seq<MicroCall> {
        seq![
            MicroCall::FlushFillKillIfNeeded {
                now_ms,
                depth_epoch: self.depth_epoch,
                tick_size: self.tick_size,
            },
            MicroCall::SampleCumulative { now_ms },
        ]
    }

    /// Once in sync, samples the book when a sample is due, and tells the measures the time.
    pub fn sample_depth(&mut self, synced: bool, now_ms: u64)
        ensures
            !synced ==> *final(self) == *old(self),
            synced ==> final(self).micro_metrics.called(
                old(self).micro_metrics,
                old(self).pass_calls(now_ms),
            ),
            synced && !old(self).sample_due(now_ms) ==> *final(self) == (SharedState {
                micro_metrics: final(self).micro_metrics,
                fill_kill_epoch: old(self).micro_metrics.fill_kill_epoch,
                cumulative_epoch: old(self).micro_metrics.cumulative_epoch,
                ..*old(self)
            }),
            synced && old(self).sample_due(now_ms) ==> {
                &&& exists|slice: DepthSlice| #[trigger]
                    shows_book(slice, old(self).order_book, now_ms)
                        && final(self).depth_history.slices@ == newest(
                        old(self).depth_history.slices@.push(Arc::new(slice)),
                        old(self).depth_history.max_slices as nat,
                    )
                &&& final(self).depth_history == (DepthHistory {
                    slices: final(self).depth_history.slices,
                    last_sample_ms: now_ms,
                    ..old(self).depth_history
                })
                &&& *final(self) == (SharedState {
                    depth_history: final(self).depth_history,
                    depth_slice_epoch: next_epoch(old(self).depth_slice_epoch),
                    micro_metrics: final(self).micro_metrics,
                    fill_kill_epoch: old(self).micro_metrics.fill_kill_epoch,
                    cumulative_epoch: old(self).micro_metrics.cumulative_epoch,
                    ..*old(self)
                })
            },
    {
        if !synced {
            return;
        }
        if now_ms.saturating_sub(self.depth_history.last_sample_ms)
            >= self.depth_history.sample_interval_ms {
            self.depth_history.push_from_book(&self.order_book, now_ms);
            self.depth_slice_epoch = self.depth_slice_epoch.wrapping_add(1);
            self.depth_history.last_sample_ms = now_ms;
        }
        let depth_epoch = self.depth_epoch;
        let tick_size = self.tick_size;
        self.micro_metrics.flush_fill_kill_if_needed(now_ms, depth_epoch, tick_size);
        self.micro_metrics.sample_cumulative(now_ms);
        assert(self.micro_metrics.calls@ =~= old(self).micro_metrics.calls@ + old(
            self,
        ).pass_calls(now_ms));
        self.sync_micro_epochs();
    }
}

} // verus!
