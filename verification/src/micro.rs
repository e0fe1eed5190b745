//! What the microstructure measures are told.
//!
//! The measures themselves are taken elsewhere: here every call on them is kept, with
//! its arguments and in its order, until whoever takes the measures fetches it and, in
//! turn, moves the epochs on.

use crate::binary64::Binary64;
use crate::trades::Trade;
use vstd::prelude::*;

verus! {

/// A call on the measures.
#[derive(Clone, Copy, Debug)]
pub enum MicroCall {
    /// The book has moved on to `depth_epoch`.
    DepthEpochAdvance { event_time: u64, depth_epoch: u64, tick_size: Binary64 },
    /// A trade met the book.  It is the book as long as the call is fetched before the next
    /// update is applied.
    Trade { trade: Trade, depth_epoch: u64, tick_size: Binary64 },
    /// Fills and kills are counted from nothing again.
    ResetFillKill,
    /// A fill or kill that has waited long enough at `now_ms` is to be counted.
    FlushFillKillIfNeeded { now_ms: u64, depth_epoch: u64, tick_size: Binary64 },
    /// The running totals are to be sampled.
    SampleCumulative { now_ms: u64 },
}

/// The calls that wait to be fetched, and how often the series have changed.
#[derive(Debug)]
pub struct MicroMetrics {
    pub fill_kill_epoch: u64,
    pub cumulative_epoch: u64,
    pub calls: Vec<MicroCall>,
}

impl Default for MicroMetrics {
    fn default() -> (metrics: MicroMetrics)
        ensures
            metrics.fill_kill_epoch == 0,
            metrics.cumulative_epoch == 0,
            metrics.calls@ == Seq::<MicroCall>::empty(),
    {
        MicroMetrics { fill_kill_epoch: 0, cumulative_epoch: 0, calls: Vec::new() }
    }
}

/// The calls of trades that meet the book, in their order.
pub open spec fn trade_calls(
    trades: Seq<Trade>,
    depth_epoch: u64,
    tick_size: Binary64,
) -> Seq<MicroCall> {
    trades.map_values(|trade: Trade| MicroCall::Trade { trade, depth_epoch, tick_size })
}

impl MicroMetrics {
    /// `self` is `before` after exactly these calls.
    pub open spec fn called(self, before: MicroMetrics, calls: Seq<MicroCall>) -> bool {
        &&& self.calls@ == before.calls@ + calls
        &&& self.fill_kill_epoch == before.fill_kill_epoch
        &&& self.cumulative_epoch == before.cumulative_epoch
    }

    /// Tells that the book has moved on.
    pub fn on_depth_epoch_advance(&mut self, event_time: u64, depth_epoch: u64, tick_size: Binary64)
        ensures
            final(self).called(
                *old(self),
                seq![MicroCall::DepthEpochAdvance { event_time, depth_epoch, tick_size }],
            ),
    {
        self.calls.push(MicroCall::DepthEpochAdvance { event_time, depth_epoch, tick_size });
        assert(self.calls@ =~= old(self).calls@ + seq![
            MicroCall::DepthEpochAdvance { event_time, depth_epoch, tick_size },
        ]);
    }

    /// Tells of a trade that met the book.
    pub fn on_trade(&mut self, trade: Trade, depth_epoch: u64, tick_size: Binary64)
        ensures
            final(self).called(
                *old(self),
                seq![MicroCall::Trade { trade, depth_epoch, tick_size }],
            ),
    {
        self.calls.push(MicroCall::Trade { trade, depth_epoch, tick_size });
        assert(self.calls@ =~= old(self).calls@ + seq![
            MicroCall::Trade { trade, depth_epoch, tick_size },
        ]);
    }

    /// Asks for fills and kills to be counted from nothing.
    pub fn reset_fill_kill(&mut self)
        ensures
            final(self).called(*old(self), seq![MicroCall::ResetFillKill]),
    {
        self.calls.push(MicroCall::ResetFillKill);
        assert(self.calls@ =~= old(self).calls@ + seq![MicroCall::ResetFillKill]);
    }

    /// Asks for a fill or kill that has waited long enough to be counted.
    pub fn flush_fill_kill_if_needed(&mut self, now_ms: u64, depth_epoch: u64, tick_size: Binary64)
        ensures
            final(self).called(
                *old(self),
                seq![MicroCall::FlushFillKillIfNeeded { now_ms, depth_epoch, tick_size }],
            ),
    {
        self.calls.push(MicroCall::FlushFillKillIfNeeded { now_ms, depth_epoch, tick_size });
        assert(self.calls@ =~= old(self).calls@ + seq![
            MicroCall::FlushFillKillIfNeeded { now_ms, depth_epoch, tick_size },
        ]);
    }

    /// Asks for a sample of the running totals.
    pub fn sample_cumulative(&mut self, now_ms: u64)
        ensures
            final(self).called(*old(self), seq![MicroCall::SampleCumulative { now_ms }]),
    {
        self.calls.push(MicroCall::SampleCumulative { now_ms });
        assert(self.calls@ =~= old(self).calls@ + seq![MicroCall::SampleCumulative { now_ms }]);
    }

    /// Fetches the calls that wait, in their order.
    pub fn take_calls(&mut self) -> (calls: Vec<MicroCall>)
        ensures
            calls@ == old(self).calls@,
            final(self).calls@ == Seq::<MicroCall>::empty(),
            final(self).fill_kill_epoch == old(self).fill_kill_epoch,
            final(self).cumulative_epoch == old(self).cumulative_epoch,
    {
        let mut calls: Vec<MicroCall> = Vec::new();
        std::mem::swap(&mut calls, &mut self.calls);
        calls
    }
}

} // verus!
