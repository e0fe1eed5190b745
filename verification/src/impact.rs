//! What a market order would pay.

use crate::binary64::Binary64;
use crate::book::OrderBook;
use crate::levels::{ascending, PriceLevel};
use vstd::prelude::*;

verus! {

/// The estimated fill of a market order.
#[derive(Clone, Copy, Debug, PartialEq)]
pub struct MarketImpact {
    pub avg_fill_price: Binary64,
    pub worst_fill_price: Binary64,
    pub slippage_bps: Binary64,
    pub slippage_pct: Binary64,
    pub levels_consumed: usize,
    pub total_qty_filled: Binary64,
    pub total_notional: Binary64,
    pub fully_filled: bool,
}

impl MarketImpact {
    /// No fill at all.
    pub open spec fn none() -> MarketImpact {
        let zero = Binary64::of(false, 0);
        MarketImpact {
            avg_fill_price: zero,
            worst_fill_price: zero,
            slippage_bps: zero,
            slippage_pct: zero,
            levels_consumed: 0,
            total_qty_filled: zero,
            total_notional: zero,
            fully_filled: false,
        }
    }
}

impl Default for MarketImpact {
    fn default() -> (impact: MarketImpact)
        ensures
            impact == MarketImpact::none(),
    {
        let zero = Binary64::zero();
        MarketImpact {
            avg_fill_price: zero,
            worst_fill_price: zero,
            slippage_bps: zero,
            slippage_pct: zero,
            levels_consumed: 0,
            total_qty_filled: zero,
            total_notional: zero,
            fully_filled: false,
        }
    }
}

/// What has been filled so far.
#[derive(Clone, Copy)]
pub struct Fill {
    pub quantity: Binary64,
    pub notional: Binary64,
    pub worst_price: Binary64,
    pub levels: usize,
    pub complete: bool,
}

impl Fill {
    pub open spec fn start() -> Fill {
        let zero = Binary64::of(false, 0);
        Fill { quantity: zero, notional: zero, worst_price: zero, levels: 0, complete: false }
    }

    /// Whether a level is passed over: its price, its quantity or their product is
    /// not above zero.
    pub open spec fn skips(level: PriceLevel) -> bool {
        let zero = Binary64::of(false, 0);
        ||| level.price.at_most(zero)
        ||| level.quantity.at_most(zero)
        ||| level.price.product(level.quantity).at_most(zero)
    }

    /// Taking a level: all of it, or, when that reaches the target, the part that
    /// is still missing.
    pub open spec fn take(self, level: PriceLevel, target: Binary64) -> Fill {
        let offered = level.price.product(level.quantity);
        if Fill::skips(level) {
            self
        } else if target.at_most(self.notional.sum(offered)) {
            let missing = target.difference(self.notional);
            Fill {
                quantity: self.quantity.sum(missing.quotient(level.price)),
                notional: self.notional.sum(missing),
                worst_price: level.price,
                levels: (self.levels + 1) as usize,
                complete: true,
            }
        } else {
            Fill {
                quantity: self.quantity.sum(level.quantity),
                notional: self.notional.sum(offered),
                worst_price: level.price,
                levels: (self.levels + 1) as usize,
                complete: self.complete,
            }
        }
    }

    /// Taking levels in turn until the target is reached.
    pub open spec fn walk(levels: Seq<PriceLevel>, target: Binary64) -> Fill
        decreases levels.len(),
    {
        if levels.len() == 0 {
            Fill::start()
        } else {
            let before = Fill::walk(levels.drop_last(), target);
            if before.complete {
                before
            } else {
                before.take(levels.last(), target)
            }
        }
    }

    /// The average price of the fill.
    pub open spec fn average(self) -> Binary64 {
        if self.quantity.positive() {
            self.notional.quotient(self.quantity)
        } else {
            Binary64::of(false, 0)
        }
    }

    /// How far, in per cent of `mid_price`, the average price is off.
    pub open spec fn slippage(self, mid_price: Binary64) -> Binary64 {
        if self.average().positive() && mid_price.positive() {
            self.average().difference(mid_price).magnitude_of().quotient(mid_price).product(
                Binary64::integer(100),
            )
        } else {
            Binary64::of(false, 0)
        }
    }

    pub open spec fn impact(self, mid_price: Binary64) -> MarketImpact {
        MarketImpact {
            avg_fill_price: self.average(),
            worst_fill_price: self.worst_price,
            slippage_bps: self.slippage(mid_price).product(Binary64::integer(100)),
            slippage_pct: self.slippage(mid_price),
            levels_consumed: self.levels,
            total_qty_filled: self.quantity,
            total_notional: self.notional,
            fully_filled: self.complete,
        }
    }

    /// Takes a level.
    fn consume_level(&mut self, level: PriceLevel, target: Binary64)
        requires
            old(self).levels < usize::MAX,
        ensures
            *final(self) == old(self).take(level, target),
    {
        let zero = Binary64::zero();
        if level.price.is_at_most(zero) || level.quantity.is_at_most(zero) {
            return;
        }
        let offered = level.price.times(level.quantity);
        if offered.is_at_most(zero) {
            return;
        }
        self.levels = self.levels + 1;
        self.worst_price = level.price;
        if target.is_at_most(self.notional.plus(offered)) {
            let missing = target.minus(self.notional);
            self.quantity = self.quantity.plus(missing.over(level.price));
            self.notional = self.notional.plus(missing);
            self.complete = true;
        } else {
            self.quantity = self.quantity.plus(level.quantity);
            self.notional = self.notional.plus(offered);
        }
    }
}

/// Walks levels in the order given, until the target is reached.
pub fn walk_levels(levels: &Vec<PriceLevel>, target: Binary64) -> (fill: Fill)
    ensures
        fill == Fill::walk(levels@, target),
        fill.levels <= levels@.len(),
{
    let zero = Binary64::zero();
    let mut fill = Fill {
        quantity: zero,
        notional: zero,
        worst_price: zero,
        levels: 0,
        complete: false,
    };
    let mut i: usize = 0;
    assert(levels@.take(0) =~= Seq::<PriceLevel>::empty());
    while i < levels.len() && !fill.complete
        invariant
            i <= levels.len(),
            fill == Fill::walk(levels@.take(i as int), target),
            fill.levels <= i,
        decreases levels.len() - i,
    {
        proof {
            assert(levels@.take(i + 1).drop_last() =~= levels@.take(i as int));
            assert(levels@.take(i + 1).last() == levels@[i as int]);
        }
        fill.consume_level(levels[i], target);
        i = i + 1;
    }
    proof {
        if fill.complete {
            lemma_walk_stops(levels@, target, i as int);
        }
        assert(i == levels@.len() ==> levels@.take(i as int) =~= levels@);
    }
    fill
}

/// A walk that is complete takes no further levels.
pub proof fn lemma_walk_stops(levels: Seq<PriceLevel>, target: Binary64, i: int)
    requires
        0 <= i <= levels.len(),
        Fill::walk(levels.take(i), target).complete,
    ensures
        Fill::walk(levels, target) == Fill::walk(levels.take(i), target),
    decreases levels.len() - i,
{
    if i < levels.len() {
        assert(levels.take(i + 1).drop_last() =~= levels.take(i));
        lemma_walk_stops(levels, target, i + 1);
    } else {
        assert(levels.take(i) =~= levels);
    }
}

impl OrderBook {
    /// The levels that a market order meets, best price first.
    pub open spec fn facing(self, is_buy: bool) -> Seq<PriceLevel> {
        if is_buy {
            ascending(self.asks@)
        } else {
            ascending(self.bids@).reverse()
        }
    }

    /// The estimate for a market order; none when nothing is to be traded.
    pub open spec fn estimate(
        self,
        notional_usd: Binary64,
        is_buy: bool,
        mid_price: Binary64,
    ) -> MarketImpact {
        if notional_usd.at_most(Binary64::of(false, 0)) {
            MarketImpact::none()
        } else {
            Fill::walk(self.facing(is_buy), notional_usd).impact(mid_price)
        }
    }

    /// Simulates a market order of `notional_usd` and estimates its fill and slippage.
    pub fn estimate_market_impact(
        &self,
        notional_usd: Binary64,
        is_buy: bool,
        mid_price: Binary64,
    ) -> (impact: MarketImpact)
        ensures
            impact == self.estimate(notional_usd, is_buy, mid_price),
    {
        let zero = Binary64::zero();
        if notional_usd.is_at_most(zero) {
            return MarketImpact::default();
        }
        let levels = if is_buy {
            self.asks.entries()
        } else {
            let mut levels: Vec<PriceLevel> = Vec::new();
            let entries = self.bids.entries();
            let mut i: usize = entries.len();
            while i > 0
                invariant
                    i <= entries@.len(),
                    levels@.len() == entries@.len() - i,
                    forall|j: int|
                        0 <= j < levels@.len() ==> #[trigger] levels@[j] == entries@[entries@.len()
                            - 1 - j],
                decreases i,
            {
                i = i - 1;
                levels.push(entries[i]);
            }
            assert(levels@ =~= entries@.reverse());
            levels
        };
        let fill = walk_levels(&levels, notional_usd);
        let hundred = Binary64::whole(100);
        let average = if fill.quantity.is_positive() {
            fill.notional.over(fill.quantity)
        } else {
            zero
        };
        let slippage = if average.is_positive() && mid_price.is_positive() {
            average.minus(mid_price).absolute().over(mid_price).times(hundred)
        } else {
            zero
        };
        MarketImpact {
            avg_fill_price: average,
            worst_fill_price: fill.worst_price,
            slippage_bps: slippage.times(hundred),
            slippage_pct: slippage,
            levels_consumed: fill.levels,
            total_qty_filled: fill.quantity,
            total_notional: fill.notional,
            fully_filled: fill.complete,
        }
    }
}

} // verus!
