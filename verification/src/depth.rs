//! Past depth of the book, sampled over time.

use crate::binary64::Binary64;
use crate::book::OrderBook;
use crate::levels::{ascending, PriceLevel, PriceLevels};
use std::collections::VecDeque;
use std::sync::Arc;
use vstd::prelude::*;

verus! {

/// A single snapshot of the order book at a point in time.
#[derive(Clone)]
pub struct DepthSlice {
    pub timestamp_ms: u64,
    /// Bids first, then asks; each side from the lowest price up.
    pub levels: Vec<(Binary64, Binary64)>,
    pub bids_len: usize,
}

/// Historical order book snapshots, the newest at the back.
pub struct DepthHistory {
    pub slices: VecDeque<Arc<DepthSlice>>,
    pub max_slices: usize,
    pub sample_interval_ms: u64,
    pub last_sample_ms: u64,
}

/// The last `max` items.
pub open spec fn newest<T>(items: Seq<T>, max: nat) -> Seq<T> {
    if items.len() > max {
        items.skip(items.len() - max)
    } else {
        items
    }
}

/// Prices and quantities of levels.
pub open spec fn level_pairs(levels: Seq<PriceLevel>) -> Seq<(Binary64, Binary64)> {
    levels.map_values(|level: PriceLevel| (level.price, level.quantity))
}

/// `slice` shows `book` as it was at `now_ms`.
pub open spec fn shows_book(slice: DepthSlice, book: OrderBook, now_ms: u64) -> bool {
    &&& slice.timestamp_ms == now_ms
    &&& slice.levels@ == level_pairs(ascending(book.bids@)) + level_pairs(ascending(book.asks@))
    &&& slice.bids_len == ascending(book.bids@).len()
}

fn append_levels(out: &mut Vec<(Binary64, Binary64)>, side: &PriceLevels)
    ensures
        final(out)@ == old(out)@ + level_pairs(ascending(side@)),
{
    let entries = side.entries();
    let ghost before = out@;
    let mut i: usize = 0;
    assert(out@ =~= before + level_pairs(entries@.take(0)));
    while i < entries.len()
        invariant
            i <= entries@.len(),
            out@ == before + level_pairs(entries@.take(i as int)),
        decreases entries.len() - i,
    {
        out.push((entries[i].price, entries[i].quantity));
        i = i + 1;
        assert(out@ =~= before + level_pairs(entries@.take(i as int)));
    }
    assert(entries@.take(i as int) =~= entries@);
}

impl DepthHistory {
    /// An empty history of 600 slices, five minutes at one each 500 ms.
    pub fn new() -> (history: DepthHistory)
        ensures
            history.slices@ == Seq::<Arc<DepthSlice>>::empty(),
            history.max_slices == 600,
            history.sample_interval_ms == 500,
            history.last_sample_ms == 0,
    {
        DepthHistory {
            slices: VecDeque::new(),
            max_slices: 600,
            sample_interval_ms: 500,
            last_sample_ms: 0,
        }
    }

    /// The settings that adding a slice leaves alone.
    pub open spec fn same_settings(self, other: DepthHistory) -> bool {
        &&& self.max_slices == other.max_slices
        &&& self.sample_interval_ms == other.sample_interval_ms
        &&& self.last_sample_ms == other.last_sample_ms
    }

    /// Adds a slice and drops the oldest ones past the limit.
    pub fn push(&mut self, slice: DepthSlice)
        ensures
            final(self).slices@ == newest(
                old(self).slices@.push(Arc::new(slice)),
                old(self).max_slices as nat,
            ),
            final(self).same_settings(*old(self)),
    {
        let ghost all = self.slices@.push(Arc::new(slice));
        let ghost max = self.max_slices as nat;
        self.slices.push_back(Arc::new(slice));
        while self.slices.len() > self.max_slices
            invariant
                newest(self.slices@, max) == newest(all, max),
                max == self.max_slices,
                self.same_settings(*old(self)),
            decreases self.slices@.len(),
        {
            let ghost before = self.slices@;
            self.slices.pop_front();
            assert(newest(self.slices@, max) =~= newest(before, max));
        }
    }

    /// Adds a slice that shows the book as it is at `now_ms`.
    pub fn push_from_book(&mut self, book: &OrderBook, now_ms: u64)
        ensures
            exists|slice: DepthSlice| #[trigger]
                shows_book(slice, *book, now_ms) && final(self).slices@ == newest(
                    old(self).slices@.push(Arc::new(slice)),
                    old(self).max_slices as nat,
                ),
            final(self).same_settings(*old(self)),
    {
        let mut levels: Vec<(Binary64, Binary64)> = Vec::new();
        append_levels(&mut levels, &book.bids);
        let bids_len = levels.len();
        append_levels(&mut levels, &book.asks);
        let slice = DepthSlice { timestamp_ms: now_ms, levels, bids_len };
        assert(slice.levels@ =~= level_pairs(ascending(book.bids@)) + level_pairs(
            ascending(book.asks@),
        ));
        assert(shows_book(slice, *book, now_ms));
        self.push(slice);
    }
}

} // verus!
