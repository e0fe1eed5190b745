//! Bringing the book in step with the exchange: a snapshot first, then the updates
//! that follow it without a gap.

use crate::binary64::Binary64;
use crate::book::{snapshot_side, OrderBook, RestDepthResponse, WsDepthUpdate};
use crate::clock::{signed, to_signed};
use crate::micro::MicroCall;
use crate::state::{apply_depth_update, book_follows, depth_call, next_epoch, SharedState};
use vstd::prelude::*;

verus! {

/// The exchange's answer to a time request.
#[derive(Debug)]
pub struct ServerTimeResponse {
    pub server_time: u64,
}

/// Whether an update can follow a snapshot: the snapshot falls within its range.
pub fn can_bridge_snapshot(update: &WsDepthUpdate, snapshot_id: u64) -> (b: bool)
    ensures
        b <==> update.first_update_id <= snapshot_id <= update.final_update_id,
{
    update.first_update_id <= snapshot_id && update.final_update_id >= snapshot_id
}

/// Whether an update directly follows the one that ended at `last_u`.
pub fn is_contiguous(update: &WsDepthUpdate, last_u: u64) -> (b: bool)
    ensures
        b <==> update.prev_final_update_id == last_u,
{
    update.prev_final_update_id == last_u
}

pub open spec fn fits_i64(x: int) -> bool {
    i64::MIN <= x <= i64::MAX
}

fn in_i64(x: i128) -> (b: bool)
    ensures
        b == fits_i64(x as int),
{
    i64::MIN as i128 <= x && x <= i64::MAX as i128
}

/// Half of `x`, cut off towards zero.
pub open spec fn half(x: int) -> int {
    if x >= 0 {
        x / 2
    } else {
        -((-x) / 2)
    }
}

/// The clock offset can be computed without leaving 64 bits.
pub open spec fn offset_fits(local_before: i64, local_after: i64, server_time: u64) -> bool {
    &&& fits_i64(local_before + local_after)
    &&& fits_i64(half(local_before + local_after) - signed(server_time))
}

/// Whether the clock offset can be computed without leaving 64 bits.
pub fn offset_in_range(local_before: i64, local_after: i64, response: &ServerTimeResponse) -> (b:
    bool)
    ensures
        b == offset_fits(local_before, local_after, response.server_time),
{
    let total: i128 = local_before as i128 + local_after as i128;
    let middle: i128 = if total >= 0 {
        total / 2
    } else {
        -((-total) / 2)
    };
    in_i64(total) && in_i64(middle - to_signed(response.server_time) as i128)
}

/// How far the local clock is ahead of the server's: the middle of a request less
/// the time that the server gave.
pub fn measure_clock_offset(local_before: i64, local_after: i64, response: &ServerTimeResponse) -> (
offset: i64)
    requires
        offset_fits(local_before, local_after, response.server_time),
    ensures
        offset == half(local_before + local_after) - signed(response.server_time),
{
    let total: i64 = local_before + local_after;
    let middle: i64 = if total >= 0 {
        total / 2
    } else if total == i64::MIN {
        -0x4000_0000_0000_0000
    } else {
        -((-total) / 2)
    };
    middle - to_signed(response.server_time)
}

/// The latency can be computed without leaving 64 bits.
pub open spec fn latency_fits(now_ms: i64, event_time: u64, clock_offset: Option<i64>) -> bool {
    clock_offset matches Some(offset) ==> {
        &&& fits_i64(now_ms - signed(event_time))
        &&& fits_i64(now_ms - signed(event_time) - offset)
    }
}

/// Whether the latency of an event can be computed without leaving 64 bits.
pub fn latency_in_range(now_ms: i64, event_time: u64, clock_offset: Option<i64>) -> (b: bool)
    ensures
        b == latency_fits(now_ms, event_time, clock_offset),
{
    match clock_offset {
        Some(offset) => {
            let age: i128 = now_ms as i128 - to_signed(event_time) as i128;
            in_i64(age) && in_i64(age - offset as i128)
        },
        None => true,
    }
}

/// The age of an event by the server's clock, at least zero; -1 when the clocks
/// have not been compared.
pub open spec fn latency(now_ms: i64, event_time: u64, clock_offset: Option<i64>) -> int {
    match clock_offset {
        Some(offset) => {
            let age = now_ms - signed(event_time) - offset;
            if age > 0 {
                age
            } else {
                0
            }
        },
        None => -1,
    }
}

/// Computes the latency of an event.
pub fn measure_latency(now_ms: i64, event_time: u64, clock_offset: Option<i64>) -> (ms: i64)
    requires
        latency_fits(now_ms, event_time, clock_offset),
    ensures
        ms == latency(now_ms, event_time, clock_offset),
{
    match clock_offset {
        Some(offset) => {
            let age: i64 = now_ms - to_signed(event_time) - offset;
            if age > 0 {
                age
            } else {
                0
            }
        },
        None => -1,
    }
}

/// What became of an update.
#[derive(Clone, Copy, Debug, PartialEq, Eq, Structural)]
pub enum SyncStep {
    /// It lies before what the book already holds.
    Stale,
    /// The book waits for an update that bridges the snapshot.
    Waiting,
    /// It bridged the snapshot and was applied.
    Bridged,
    /// It followed the last update and was applied.
    Applied,
    /// It did not follow the last update and was passed over.
    Ignored,
    /// It did not follow the last update: the feed has a gap.
    Gap,
}

/// Where the book stands in the sequence of updates.
#[derive(Clone, Copy, Debug)]
pub struct DepthSync {
    pub snapshot_update_id: u64,
    pub clock_offset: Option<i64>,
    pub synced: bool,
    pub last_final_update_id: u64,
}

/// The status line of a feed that is in step.
pub open spec fn live_status(clock_offset: Option<i64>) -> Seq<char> {
    if clock_offset is Some {
        "Live"@
    } else {
        "Live (latency N/A)"@
    }
}

fn live_status_text(clock_offset: Option<i64>) -> (s: String)
    ensures
        s@ == live_status(clock_offset),
{
    if clock_offset.is_some() {
        "Live".to_owned()
    } else {
        "Live (latency N/A)".to_owned()
    }
}

/// What the measures are told of a step: of an update that goes into the book, and,
/// when it bridges the snapshot, to count from nothing.
pub open spec fn step_calls(step: SyncStep, state: SharedState, update: WsDepthUpdate) -> Seq<
    MicroCall,
> {
    match step {
        SyncStep::Bridged => seq![depth_call(state, update), MicroCall::ResetFillKill],
        SyncStep::Applied => seq![depth_call(state, update)],
        _ => Seq::empty(),
    }
}

/// An update was taken into the book or left out, as the step says.
pub open spec fn stepped(
    sync: DepthSync,
    book: OrderBook,
    update: WsDepthUpdate,
    step: SyncStep,
    next_sync: DepthSync,
    next_book: OrderBook,
) -> bool {
    &&& next_sync == sync.after(step, update)
    &&& if step.takes() {
        book_follows(book, update, next_book)
    } else {
        next_book == book
    }
}

impl SyncStep {
    /// The update went into the book.
    pub open spec fn takes(self) -> bool {
        self == SyncStep::Bridged || self == SyncStep::Applied
    }
}

impl DepthSync {
    pub open spec fn bridges(self, update: WsDepthUpdate) -> bool {
        update.first_update_id <= self.snapshot_update_id <= update.final_update_id
    }

    pub open spec fn follows(self, update: WsDepthUpdate) -> bool {
        update.prev_final_update_id == self.last_final_update_id
    }

    /// What becomes of an update that was buffered while the snapshot was fetched.
    pub open spec fn buffered_step(self, update: WsDepthUpdate) -> SyncStep {
        if update.final_update_id < self.snapshot_update_id {
            SyncStep::Stale
        } else if !self.synced {
            if self.bridges(update) {
                SyncStep::Bridged
            } else {
                SyncStep::Waiting
            }
        } else if self.follows(update) {
            SyncStep::Applied
        } else {
            SyncStep::Ignored
        }
    }

    /// What becomes of an update that arrives later.
    pub open spec fn live_step(self, update: WsDepthUpdate) -> SyncStep {
        if update.final_update_id <= self.last_final_update_id {
            SyncStep::Stale
        } else if !self.synced {
            if self.bridges(update) {
                SyncStep::Bridged
            } else {
                SyncStep::Waiting
            }
        } else if self.follows(update) {
            SyncStep::Applied
        } else {
            SyncStep::Gap
        }
    }

    /// The place in the sequence after a step.
    pub open spec fn after(self, step: SyncStep, update: WsDepthUpdate) -> DepthSync {
        if step.takes() {
            DepthSync { synced: true, last_final_update_id: update.final_update_id, ..self }
        } else {
            self
        }
    }

    /// In step, the book ends where the sequence has got to.
    pub open spec fn in_step_with(self, book: OrderBook) -> bool {
        self.synced ==> book.last_update_id == self.last_final_update_id
    }

    /// Starts from a snapshot: fills the book, sets the clock offset and the price
    /// step, and counts from zero again.
    pub fn start(
        state: &mut SharedState,
        snapshot: &RestDepthResponse,
        clock_offset: Option<i64>,
        tick_size: Binary64,
        price_decimals: usize,
    ) -> (sync: DepthSync)
        ensures
            sync.snapshot_update_id == snapshot.last_update_id,
            sync.clock_offset == clock_offset,
            !sync.synced,
            sync.last_final_update_id == 0,
            sync.in_step_with(final(state).order_book),
            final(state).order_book.wf(),
            final(state).order_book.bids@ == snapshot_side(snapshot.bids@),
            final(state).order_book.asks@ == snapshot_side(snapshot.asks@),
            final(state).order_book.last_update_id == snapshot.last_update_id,
            final(state).order_book.last_event_time == old(state).order_book.last_event_time,
            final(state).order_book.clock_offset == match clock_offset {
                Some(offset) => offset,
                None => 0,
            },
            final(state).status_msg@ == "Syncing..."@,
            final(state).micro_metrics.called(
                old(state).micro_metrics,
                seq![MicroCall::ResetFillKill],
            ),
            *final(state) == (SharedState {
                order_book: final(state).order_book,
                micro_metrics: final(state).micro_metrics,
                latency_ms: if clock_offset is None {
                    (-1) as i64
                } else {
                    old(state).latency_ms
                },
                tick_size,
                price_decimals,
                depth_epoch: 0,
                depth_slice_epoch: 0,
                trade_epoch: 0,
                fill_kill_epoch: old(state).micro_metrics.fill_kill_epoch,
                cumulative_epoch: old(state).micro_metrics.cumulative_epoch,
                connected: false,
                status_msg: final(state).status_msg,
                ..*old(state)
            }),
    {
        state.order_book.apply_snapshot(snapshot);
        state.order_book.clock_offset = match clock_offset {
            Some(offset) => offset,
            None => 0,
        };
        if clock_offset.is_none() {
            state.latency_ms = -1;
        }
        state.tick_size = tick_size;
        state.price_decimals = price_decimals;
        state.depth_epoch = 0;
        state.depth_slice_epoch = 0;
        state.trade_epoch = 0;
        state.micro_metrics.reset_fill_kill();
        state.sync_micro_epochs();
        state.connected = false;
        state.status_msg = "Syncing...".to_owned();
        DepthSync {
            snapshot_update_id: snapshot.last_update_id,
            clock_offset,
            synced: false,
            last_final_update_id: 0,
        }
    }

    /// Takes an update that was buffered while the snapshot was fetched.
    pub fn take_buffered(&mut self, state: &mut SharedState, update: &WsDepthUpdate) -> (step:
        SyncStep)
        ensures
            step == old(self).buffered_step(*update),
            stepped(
                *old(self),
                old(state).order_book,
                *update,
                step,
                *final(self),
                final(state).order_book,
            ),
            final(state).micro_metrics.called(
                old(state).micro_metrics,
                step_calls(step, *old(state), *update),
            ),
            old(state).order_book.wf() ==> final(state).order_book.wf(),
            old(self).in_step_with(old(state).order_book) ==> final(self).in_step_with(
                final(state).order_book,
            ),
            match step {
                SyncStep::Bridged => *final(state) == (SharedState {
                    order_book: final(state).order_book,
                    depth_epoch: next_epoch(old(state).depth_epoch),
                    micro_metrics: final(state).micro_metrics,
                    fill_kill_epoch: old(state).micro_metrics.fill_kill_epoch,
                    cumulative_epoch: old(state).micro_metrics.cumulative_epoch,
                    ..*old(state)
                }),
                SyncStep::Applied => *final(state) == (SharedState {
                    order_book: final(state).order_book,
                    depth_epoch: next_epoch(old(state).depth_epoch),
                    micro_metrics: final(state).micro_metrics,
                    ..*old(state)
                }),
                _ => *final(state) == *old(state),
            },
    {
        if update.final_update_id < self.snapshot_update_id {
            return SyncStep::Stale;
        }
        if !self.synced {
            if can_bridge_snapshot(update, self.snapshot_update_id) {
                apply_depth_update(state, update);
                self.last_final_update_id = update.final_update_id;
                self.synced = true;
                state.micro_metrics.reset_fill_kill();
                assert(state.micro_metrics.calls@ =~= old(state).micro_metrics.calls@
                    + step_calls(SyncStep::Bridged, *old(state), *update));
                state.sync_micro_epochs();
                return SyncStep::Bridged;
            }
            return SyncStep::Waiting;
        }
        if is_contiguous(update, self.last_final_update_id) {
            apply_depth_update(state, update);
            self.last_final_update_id = update.final_update_id;
            return SyncStep::Applied;
        }
        SyncStep::Ignored
    }

    /// Once the buffered updates are through: the feed is live if one of them bridged
    /// the snapshot.
    pub fn finish_buffered(&self, state: &mut SharedState)
        ensures
            !self.synced ==> *final(state) == *old(state),
            self.synced ==> {
                &&& final(state).status_msg@ == live_status(self.clock_offset)
                &&& *final(state) == (SharedState {
                    connected: true,
                    status_msg: final(state).status_msg,
                    ..*old(state)
                })
            },
    {
        if self.synced {
            state.connected = true;
            state.status_msg = live_status_text(self.clock_offset);
        }
    }

    /// Whether an update of the live feed would be applied.
    pub fn applies_live(&self, update: &WsDepthUpdate) -> (b: bool)
        ensures
            b == (self.live_step(*update) == SyncStep::Applied),
    {
        update.final_update_id > self.last_final_update_id && self.synced && is_contiguous(
            update,
            self.last_final_update_id,
        )
    }

    /// Takes an update of the live feed that is seen at `now_ms`, local time.
    pub fn take_live(&mut self, state: &mut SharedState, update: &WsDepthUpdate, now_ms: i64) -> (
    step: SyncStep)
        requires
            old(self).live_step(*update) == SyncStep::Applied ==> latency_fits(
                now_ms,
                update.event_time,
                old(self).clock_offset,
            ),
        ensures
            step == old(self).live_step(*update),
            stepped(
                *old(self),
                old(state).order_book,
                *update,
                step,
                *final(self),
                final(state).order_book,
            ),
            final(state).micro_metrics.called(
                old(state).micro_metrics,
                step_calls(step, *old(state), *update),
            ),
            old(state).order_book.wf() ==> final(state).order_book.wf(),
            old(self).in_step_with(old(state).order_book) ==> final(self).in_step_with(
                final(state).order_book,
            ),
            match step {
                SyncStep::Bridged => {
                    &&& final(state).status_msg@ == live_status(old(self).clock_offset)
                    &&& *final(state) == (SharedState {
                        order_book: final(state).order_book,
                        depth_epoch: next_epoch(old(state).depth_epoch),
                        micro_metrics: final(state).micro_metrics,
                        fill_kill_epoch: old(state).micro_metrics.fill_kill_epoch,
                        cumulative_epoch: old(state).micro_metrics.cumulative_epoch,
                        connected: true,
                        status_msg: final(state).status_msg,
                        ..*old(state)
                    })
                },
                SyncStep::Applied => {
                    &&& final(state).latency_ms == latency(
                        now_ms,
                        update.event_time,
                        old(self).clock_offset,
                    )
                    &&& *final(state) == (SharedState {
                        order_book: final(state).order_book,
                        depth_epoch: next_epoch(old(state).depth_epoch),
                        micro_metrics: final(state).micro_metrics,
                        latency_ms: final(state).latency_ms,
                        ..*old(state)
                    })
                },
                SyncStep::Gap => {
                    &&& final(state).status_msg@ == "Desynced (gap). Reconnecting..."@
                    &&& *final(state) == (SharedState {
                        connected: false,
                        status_msg: final(state).status_msg,
                        ..*old(state)
                    })
                },
                _ => *final(state) == *old(state),
            },
    {
        if update.final_update_id <= self.last_final_update_id {
            return SyncStep::Stale;
        }
        if !self.synced {
            if can_bridge_snapshot(update, self.snapshot_update_id) {
                apply_depth_update(state, update);
                self.last_final_update_id = update.final_update_id;
                self.synced = true;
                state.micro_metrics.reset_fill_kill();
                assert(state.micro_metrics.calls@ =~= old(state).micro_metrics.calls@
                    + step_calls(SyncStep::Bridged, *old(state), *update));
                state.sync_micro_epochs();
                state.connected = true;
                state.status_msg = live_status_text(self.clock_offset);
                return SyncStep::Bridged;
            }
            return SyncStep::Waiting;
        }
        if is_contiguous(update, self.last_final_update_id) {
            let latency_ms = measure_latency(now_ms, update.event_time, self.clock_offset);
            apply_depth_update(state, update);
            state.latency_ms = latency_ms;
            self.last_final_update_id = update.final_update_id;
            return SyncStep::Applied;
        }
        state.connected = false;
        state.status_msg = "Desynced (gap). Reconnecting...".to_owned();
        SyncStep::Gap
    }
}

} // verus!
