//! The order book of one symbol.

use crate::binary64::Binary64;
use crate::decimal::{parse, parsed};
use crate::levels::{highest_level, lowest_level, with_level, PriceLevel, PriceLevels};
use vstd::prelude::*;

verus! {

/// A depth snapshot, as the REST endpoint gives it.  Each entry is a price and a
/// quantity in decimal notation.
#[derive(Debug)]
pub struct RestDepthResponse {
    pub last_update_id: u64,
    pub bids: Vec<[String; 2]>,
    pub asks: Vec<[String; 2]>,
}

/// A depth update, as the stream gives it.
#[derive(Clone, Debug)]
pub struct WsDepthUpdate {
    pub event_type: String,
    pub event_time: u64,
    pub transaction_time: u64,
    pub symbol: String,
    pub first_update_id: u64,
    pub final_update_id: u64,
    pub prev_final_update_id: u64,
    pub bids: Vec<[String; 2]>,
    pub asks: Vec<[String; 2]>,
}

/// The resting orders of one symbol.
#[derive(Clone, Debug)]
pub struct OrderBook {
    pub bids: PriceLevels,
    pub asks: PriceLevels,
    pub last_update_id: u64,
    pub last_event_time: u64,
    pub clock_offset: i64,
}

/// The price and quantity of an entry, if both are numbers.
pub open spec fn entry_values(entry: [String; 2]) -> Option<(Binary64, Binary64)> {
    match (parsed(entry@[0]@), parsed(entry@[1]@)) {
        (Some(price), Some(quantity)) => Some((price, quantity)),
        _ => None,
    }
}

/// One side of a snapshot: of the entries that are numbers, those with a positive
/// quantity, later entries overriding earlier ones at the same price.
pub open spec fn snapshot_side(entries: Seq<[String; 2]>) -> Map<u64, PriceLevel>
    decreases entries.len(),
{
    if entries.len() == 0 {
        Map::empty()
    } else {
        let before = snapshot_side(entries.drop_last());
        match entry_values(entries.last()) {
            Some((price, quantity)) => if quantity.positive() {
                with_level(before, price, quantity)
            } else {
                before
            },
            None => before,
        }
    }
}

/// A side after one entry of an update: a zero quantity removes the level, any
/// other sets it, and an entry that is not numeric changes nothing.
pub open spec fn updated_by_entry(
    side: Map<u64, PriceLevel>,
    entry: [String; 2],
) -> Map<u64, PriceLevel> {
    match entry_values(entry) {
        Some((price, quantity)) => if quantity.is_zero() {
            side.remove(price.order_key())
        } else {
            with_level(side, price, quantity)
        },
        None => side,
    }
}

/// A side after the entries of an update, in their order.
pub open spec fn updated_side(
    side: Map<u64, PriceLevel>,
    entries: Seq<[String; 2]>,
) -> Map<u64, PriceLevel>
    decreases entries.len(),
{
    if entries.len() == 0 {
        side
    } else {
        updated_by_entry(updated_side(side, entries.drop_last()), entries.last())
    }
}

/// Reads the price and quantity of an entry.
fn read_entry(entry: &[String; 2]) -> (r: Option<(Binary64, Binary64)>)
    ensures
        r == entry_values(*entry),
{
    let price = parse(entry[0].as_str());
    let quantity = parse(entry[1].as_str());
    match (price, quantity) {
        (Some(p), Some(q)) => Some((p, q)),
        _ => None,
    }
}

/// Fills an empty side from the entries of a snapshot.
fn fill_side(side: &mut PriceLevels, entries: &Vec<[String; 2]>)
    requires
        old(side)@ == Map::<u64, PriceLevel>::empty(),
    ensures
        final(side)@ == snapshot_side(entries@),
        final(side).wf(),
{
    let mut i: usize = 0;
    assert(entries@.take(0) =~= Seq::<[String; 2]>::empty());
    while i < entries.len()
        invariant
            i <= entries@.len(),
            side@ == snapshot_side(entries@.take(i as int)),
            side.wf(),
        decreases entries.len() - i,
    {
        proof {
            assert(entries@.take(i + 1).drop_last() =~= entries@.take(i as int));
            assert(entries@.take(i + 1).last() == entries@[i as int]);
        }
        match read_entry(&entries[i]) {
            Some((price, quantity)) => {
                if quantity.is_positive() {
                    side.insert(price, quantity);
                }
            },
            None => {},
        }
        i = i + 1;
    }
    assert(entries@.take(i as int) =~= entries@);
}

/// Applies the entries of an update to a side.
fn update_side(side: &mut PriceLevels, entries: &Vec<[String; 2]>)
    ensures
        final(side)@ == updated_side(old(side)@, entries@),
        old(side).wf() ==> final(side).wf(),
{
    let mut i: usize = 0;
    let ghost before = side@;
    assert(entries@.take(0) =~= Seq::<[String; 2]>::empty());
    while i < entries.len()
        invariant
            i <= entries@.len(),
            side@ == updated_side(before, entries@.take(i as int)),
            old(side).wf() ==> side.wf(),
        decreases entries.len() - i,
    {
        proof {
            assert(entries@.take(i + 1).drop_last() =~= entries@.take(i as int));
            assert(entries@.take(i + 1).last() == entries@[i as int]);
        }
        match read_entry(&entries[i]) {
            Some((price, quantity)) => {
                if quantity.is_same(Binary64::zero()) {
                    side.remove(price);
                } else {
                    side.insert(price, quantity);
                }
            },
            None => {},
        }
        i = i + 1;
    }
    assert(entries@.take(i as int) =~= entries@);
}

impl OrderBook {
    /// Both sides are keyed by their prices.
    pub open spec fn wf(self) -> bool {
        self.bids.wf() && self.asks.wf()
    }

    /// An empty book.
    pub fn new() -> (book: OrderBook)
        ensures
            book.wf(),
            book.bids@ == Map::<u64, PriceLevel>::empty(),
            book.asks@ == Map::<u64, PriceLevel>::empty(),
            book.last_update_id == 0,
            book.last_event_time == 0,
            book.clock_offset == 0,
    {
        OrderBook {
            bids: PriceLevels::new(),
            asks: PriceLevels::new(),
            last_update_id: 0,
            last_event_time: 0,
            clock_offset: 0,
        }
    }

    /// Replaces both sides by those of a snapshot.
    pub fn apply_snapshot(&mut self, snapshot: &RestDepthResponse)
        ensures
            final(self).wf(),
            final(self).bids@ == snapshot_side(snapshot.bids@),
            final(self).asks@ == snapshot_side(snapshot.asks@),
            final(self).last_update_id == snapshot.last_update_id,
            final(self).last_event_time == old(self).last_event_time,
            final(self).clock_offset == old(self).clock_offset,
    {
        self.bids.clear();
        self.asks.clear();
        fill_side(&mut self.bids, &snapshot.bids);
        fill_side(&mut self.asks, &snapshot.asks);
        self.last_update_id = snapshot.last_update_id;
    }

    /// Applies an incremental update.
    pub fn apply_update(&mut self, update: &WsDepthUpdate)
        ensures
            old(self).wf() ==> final(self).wf(),
            final(self).bids@ == updated_side(old(self).bids@, update.bids@),
            final(self).asks@ == updated_side(old(self).asks@, update.asks@),
            final(self).last_update_id == update.final_update_id,
            final(self).last_event_time == update.event_time,
            final(self).clock_offset == old(self).clock_offset,
    {
        update_side(&mut self.bids, &update.bids);
        update_side(&mut self.asks, &update.asks);
        self.last_update_id = update.final_update_id;
        self.last_event_time = update.event_time;
    }

    /// The highest bid, with its quantity.
    pub fn best_bid(&self) -> (best: Option<(Binary64, Binary64)>)
        ensures
            best == best_of(highest_level(self.bids@)),
    {
        match self.bids.highest() {
            Some(level) => Some((level.price, level.quantity)),
            None => None,
        }
    }

    /// The lowest ask, with its quantity.
    pub fn best_ask(&self) -> (best: Option<(Binary64, Binary64)>)
        ensures
            best == best_of(lowest_level(self.asks@)),
    {
        match self.asks.lowest() {
            Some(level) => Some((level.price, level.quantity)),
            None => None,
        }
    }

    /// The lowest ask less the highest bid, when there are both.
    pub fn spread(&self) -> (spread: Option<Binary64>)
        ensures
            spread == match (highest_level(self.bids@), lowest_level(self.asks@)) {
                (Some(bid), Some(ask)) => Some(ask.price.difference(bid.price)),
                _ => None,
            },
    {
        match (self.best_bid(), self.best_ask()) {
            (Some((bid, _)), Some((ask, _))) => Some(ask.minus(bid)),
            _ => None,
        }
    }
}

pub open spec fn best_of(level: Option<PriceLevel>) -> Option<(Binary64, Binary64)> {
    match level {
        Some(level) => Some((level.price, level.quantity)),
        None => None,
    }
}

} // verus!
