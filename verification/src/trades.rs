//! The recent trades of one symbol.

use crate::binary64::Binary64;
use crate::decimal::{parse, parsed};
use std::collections::VecDeque;
use vstd::prelude::*;

verus! {

/// An aggregated trade, as the stream gives it.
#[derive(Clone, Debug)]
pub struct WsAggTrade {
    pub event_type: String,
    pub event_time: u64,
    pub symbol: String,
    pub agg_trade_id: u64,
    pub price: String,
    pub quantity: String,
    pub first_trade_id: u64,
    pub last_trade_id: u64,
    pub trade_time: u64,
    pub is_buyer_maker: bool,
}

/// A trade.
#[derive(Clone, Copy, Debug)]
pub struct Trade {
    pub timestamp_ms: u64,
    pub price: Binary64,
    pub quantity: Binary64,
    pub is_buy: bool,
}

impl WsAggTrade {
    /// The trade that this message reports, if its price and quantity are numbers.
    /// The taker bought when the buyer was not the maker.
    pub open spec fn trade(self) -> Option<Trade> {
        match (parsed(self.price@), parsed(self.quantity@)) {
            (Some(price), Some(quantity)) => Some(
                Trade {
                    timestamp_ms: self.trade_time,
                    price,
                    quantity,
                    is_buy: !self.is_buyer_maker,
                },
            ),
            _ => None,
        }
    }

    /// Reads the trade that this message reports.
    pub fn to_trade(&self) -> (trade: Option<Trade>)
        ensures
            trade == self.trade(),
    {
        match (parse(self.price.as_str()), parse(self.quantity.as_str())) {
            (Some(price), Some(quantity)) => Some(
                Trade {
                    timestamp_ms: self.trade_time,
                    price,
                    quantity,
                    is_buy: !self.is_buyer_maker,
                },
            ),
            _ => None,
        }
    }
}

/// Trades in the order they arrived, over a window of time.
#[derive(Clone)]
pub struct TradeHistory {
    pub trades: VecDeque<Trade>,
    pub window_ms: u64,
}

/// `time - window`, or zero when the window reaches further back.
pub open spec fn window_start(time: u64, window: u64) -> u64 {
    if time >= window {
        (time - window) as u64
    } else {
        0
    }
}

/// The trades that are left when those at the front that are older than `cutoff`
/// are dropped, up to the first that is not.
pub open spec fn drop_older(trades: Seq<Trade>, cutoff: u64) -> Seq<Trade>
    decreases trades.len(),
{
    if trades.len() > 0 && trades[0].timestamp_ms < cutoff {
        drop_older(trades.skip(1), cutoff)
    } else {
        trades
    }
}

/// How many trades are not older than `cutoff`.
pub open spec fn count_since(trades: Seq<Trade>, cutoff: u64) -> nat {
    trades.filter(|t: Trade| t.timestamp_ms >= cutoff).len()
}

/// Trades per second over a window of `window_ms` that ends at `now_ms`.
pub open spec fn trades_per_second(trades: Seq<Trade>, now_ms: u64, window_ms: u64) -> Binary64 {
    if trades.len() == 0 || window_ms == 0 {
        Binary64::of(false, 0)
    } else {
        Binary64::integer(count_since(trades, window_start(now_ms, window_ms))).quotient(
            Binary64::integer(window_ms as nat).quotient(Binary64::integer(1000)),
        )
    }
}

impl TradeHistory {
    pub fn new(window_ms: u64) -> (history: TradeHistory)
        ensures
            history.trades@ == Seq::<Trade>::empty(),
            history.window_ms == window_ms,
    {
        TradeHistory { trades: VecDeque::new(), window_ms }
    }

    /// Appends a trade and drops what its time leaves outside the window.
    pub fn add_trade(&mut self, trade: Trade)
        ensures
            final(self).trades@ == drop_older(
                old(self).trades@.push(trade),
                window_start(trade.timestamp_ms, old(self).window_ms),
            ),
            final(self).window_ms == old(self).window_ms,
    {
        let timestamp = trade.timestamp_ms;
        self.trades.push_back(trade);
        self.cleanup(timestamp);
    }

    /// Drops the trades at the front that are older than the window.
    fn cleanup(&mut self, current_time_ms: u64)
        ensures
            final(self).trades@ == drop_older(
                old(self).trades@,
                window_start(current_time_ms, old(self).window_ms),
            ),
            final(self).window_ms == old(self).window_ms,
    {
        let cutoff = current_time_ms.saturating_sub(self.window_ms);
        let ghost before = self.trades@;
        while self.trades.len() > 0 && self.trades[0].timestamp_ms < cutoff
            invariant
                drop_older(self.trades@, cutoff) == drop_older(before, cutoff),
                self.window_ms == old(self).window_ms,
            decreases self.trades@.len(),
        {
            assert(self.trades@.subrange(1, self.trades@.len() as int) =~= self.trades@.skip(1));
            self.trades.pop_front();
        }
    }

    /// Trades per second over the `window_ms` before `now_exchange_ms`.
    pub fn rolling_tps(&self, now_exchange_ms: u64, window_ms: u64) -> (tps: Binary64)
        ensures
            tps == trades_per_second(self.trades@, now_exchange_ms, window_ms),
    {
        if self.trades.len() == 0 || window_ms == 0 {
            return Binary64::zero();
        }
        let cutoff = now_exchange_ms.saturating_sub(window_ms);
        let mut count: usize = 0;
        let mut i: usize = 0;
        assert(self.trades@.take(0) =~= Seq::<Trade>::empty());
        while i < self.trades.len()
            invariant
                i <= self.trades.len(),
                count <= i,
                count == count_since(self.trades@.take(i as int), cutoff),
            decreases self.trades.len() - i,
        {
            proof {
                let recent = |t: Trade| t.timestamp_ms >= cutoff;
                assert(self.trades@.take(i + 1) =~= self.trades@.take(i as int).push(
                    self.trades@[i as int],
                ));
                self.trades@.take(i as int).lemma_filter_push(self.trades@[i as int], recent);
            }
            if self.trades[i].timestamp_ms >= cutoff {
                count = count + 1;
            }
            i = i + 1;
        }
        assert(self.trades@.take(i as int) =~= self.trades@);
        Binary64::whole(count as u64).over(Binary64::whole(window_ms).over(Binary64::whole(1000)))
    }
}

} // verus!
