//! Laws of the levels that an order meets and of what is reported of its fill.

use crate::binary64::Binary64;
use crate::book::{best_of, OrderBook};
use crate::impact::Fill;
use crate::laws::book::{
    allotted, amounts_of, exact_totals, finite_levels, full_amounts, in_order, is_allotment,
    law_exact_fill_is_best, law_fill_takes_the_least_depth, reaches,
    swept, usable, worth, worthless,
};
use crate::laws::numbers::law_order_is_by_value;
use crate::levels::{
    ascending, lemma_finite_has_key_list, lists_keys, with_level, PriceLevel, PriceLevels,
};
use crate::rounding::{lemma_magnitude_increases, INFINITY_CODE};
use vstd::arithmetic::power2::{lemma_pow2_pos, pow2};
use vstd::prelude::*;

verus! {

/// Setting a quantity at a price changes the level at that price alone, which keeps the
/// price that it was made with.
pub proof fn law_setting_a_level(
    levels: Map<u64, PriceLevel>,
    price: Binary64,
    quantity: Binary64,
    key: u64,
)
    ensures
        ({
            let after = with_level(levels, price, quantity);
            &&& after.contains_key(price.order_key())
            &&& after[price.order_key()].quantity == quantity
            &&& after[price.order_key()].price == if levels.contains_key(price.order_key()) {
                levels[price.order_key()].price
            } else {
                price
            }
            &&& key != price.order_key() ==> after.contains_key(key) == levels.contains_key(key)
                && after[key] == levels[key]
        }),
{
}

/// The list of a side holds each of its levels once, from the lowest price up.
pub proof fn law_list_holds_each_level_once(side: PriceLevels)
    requires
        side.wf(),
    ensures
        ascending(side@).len() == side@.len(),
        forall|i: int|
            0 <= i < ascending(side@).len() ==> {
                let level = #[trigger] ascending(side@)[i];
                side@.contains_key(level.price.order_key()) && side@[level.price.order_key()]
                    == level
            },
        forall|k: u64| #[trigger]
            side@.contains_key(k) ==> ascending(side@).contains(side@[k]),
        forall|i: int, j: int|
            0 <= i < j < ascending(side@).len() ==> (#[trigger] ascending(
                side@,
            )[i]).price.order_key() < (#[trigger] ascending(side@)[j]).price.order_key(),
{
    side.lemma_finite();
    lemma_finite_has_key_list(side@);
    let levels = side@;
    let keys = choose|keys: Seq<u64>| lists_keys(levels, keys);
    let list = ascending(levels);
    assert forall|i: int| 0 <= i < list.len() implies {
        let level = #[trigger] list[i];
        levels.contains_key(level.price.order_key()) && levels[level.price.order_key()] == level
    } by {
        assert(levels.contains_key(keys[i]));
    }
    assert forall|k: u64| #[trigger] levels.contains_key(k) implies list.contains(levels[k]) by {
        let i = choose|i: int| 0 <= i < keys.len() && keys[i] == k;
        assert(list[i] == levels[k]);
    }
    assert forall|i: int, j: int| 0 <= i < j < list.len() implies (
    #[trigger] list[i]).price.order_key() < (#[trigger] list[j]).price.order_key() by {
        assert(levels.contains_key(keys[i]));
        assert(levels.contains_key(keys[j]));
        assert(keys[i] < keys[j]);
    }
    assert(keys.no_duplicates());
    keys.unique_seq_to_set();
    assert(keys.to_set() =~= levels.dom());
}

/// A buy meets the asks from the lowest price up, a sell the bids from the highest down.
pub proof fn law_order_meets_the_other_side(book: OrderBook)
    ensures
        book.facing(true) == ascending(book.asks@),
        book.facing(false).len() == ascending(book.bids@).len(),
        forall|i: int|
            0 <= i < ascending(book.bids@).len() ==> #[trigger] book.facing(false)[i] == ascending(
                book.bids@,
            )[ascending(book.bids@).len() - 1 - i],
{
}

/// What is quoted of a best level is its price and quantity.
pub proof fn law_quote_of_a_level(level: PriceLevel)
    ensures
        best_of(Some(level)) == Some((level.price, level.quantity)),
        best_of(None::<PriceLevel>) is None,
{
}

/// What is reported of an order: its totals, their quotient as the average price, and how
/// far that is from the middle, as a share of the middle, in per cent and in hundredths
/// of that.  An order for nothing is reported as zeros.
pub proof fn law_report_of_an_order(
    book: OrderBook,
    notional_usd: Binary64,
    is_buy: bool,
    mid_price: Binary64,
)
    ensures
        ({
            let zero = Binary64::of(false, 0);
            let report = book.estimate(notional_usd, is_buy, mid_price);
            let fill = Fill::walk(book.facing(is_buy), notional_usd);
            &&& notional_usd.at_most(zero) ==> {
                &&& report.avg_fill_price == zero
                &&& report.worst_fill_price == zero
                &&& report.slippage_bps == zero
                &&& report.slippage_pct == zero
                &&& report.levels_consumed == 0
                &&& report.total_qty_filled == zero
                &&& report.total_notional == zero
                &&& !report.fully_filled
            }
            &&& !notional_usd.at_most(zero) ==> {
                &&& report.worst_fill_price == fill.worst_price
                &&& report.levels_consumed == fill.levels
                &&& report.total_qty_filled == fill.quantity
                &&& report.total_notional == fill.notional
                &&& report.fully_filled == fill.complete
                &&& report.avg_fill_price == if zero.below(report.total_qty_filled) {
                    report.total_notional.quotient(report.total_qty_filled)
                } else {
                    zero
                }
                &&& report.slippage_pct == if zero.below(report.avg_fill_price) && zero.below(
                    mid_price,
                ) {
                    report.avg_fill_price.difference(mid_price).magnitude_of().quotient(
                        mid_price,
                    ).product(Binary64::integer(100))
                } else {
                    zero
                }
                &&& report.slippage_bps == report.slippage_pct.product(Binary64::integer(100))
            }
        }),
{
}

/// Taking all of a level leaves no rounding.
pub open spec fn exact_at(levels: Seq<PriceLevel>, i: int) -> bool {
    let before = swept(levels.take(i));
    let level = levels[i];
    let offered = level.price.product(level.quantity);
    &&& offered.code() < INFINITY_CODE
    &&& offered.units() * pow2(1074) == level.price.units() * level.quantity.units()
    &&& before.notional.sum(offered).code() < INFINITY_CODE
    &&& before.notional.sum(offered).units() == before.notional.units() + offered.units()
    &&& before.quantity.sum(level.quantity).units() == before.quantity.units()
        + level.quantity.units()
}

/// Nor does taking what is missing from the last level.
pub open spec fn exact_completion(before: Fill, level: PriceLevel, target: Binary64) -> bool {
    let missing = target.difference(before.notional);
    let part = missing.quotient(level.price);
    &&& missing.units() == target.units() - before.notional.units()
    &&& part.units() * level.price.units() == missing.units() * pow2(1074)
    &&& before.quantity.sum(part).units() == before.quantity.units() + part.units()
    &&& before.notional.sum(missing).units() == before.notional.units() + missing.units()
}

/// A fill of an order for `target` in which nothing is rounded.
pub open spec fn unrounded(levels: Seq<PriceLevel>, target: Binary64) -> bool {
    let best = usable(levels);
    let k = Fill::walk(levels, target).levels as int;
    &&& finite_levels(best)
    &&& target.code() < INFINITY_CODE
    &&& forall|i: int| 0 <= i < k ==> #[trigger] exact_at(best, i)
    &&& exact_completion(swept(best.take(k - 1)), best[k - 1], target)
}

/// Sweeping levels without rounding adds up their quantities and what they are worth.
proof fn lemma_sweep(levels: Seq<PriceLevel>, n: int)
    requires
        0 <= n <= levels.len(),
        forall|i: int| 0 <= i < n ==> #[trigger] exact_at(levels, i),
    ensures
        swept(levels.take(n)).quantity.units() == allotted(full_amounts(levels.take(n))),
        swept(levels.take(n)).notional.units() * pow2(1074) == worth(
            levels,
            full_amounts(levels.take(n)),
        ),
        swept(levels.take(n)).notional.code() < INFINITY_CODE,
    decreases n,
{
    let p = pow2(1074);
    if n == 0 {
        assert(0 * p == 0);
    } else {
        lemma_sweep(levels, n - 1);
        assert(exact_at(levels, n - 1));
        let part = levels.take(n);
        assert(part.drop_last() =~= levels.take(n - 1));
        assert(full_amounts(part).drop_last() =~= full_amounts(levels.take(n - 1)));
        let a = swept(levels.take(n - 1)).notional.units();
        let b = levels[n - 1].price.product(levels[n - 1].quantity).units();
        assert((a + b) * p == a * p + b * p) by (nonlinear_arith);
    }
}

/// A fill without rounding takes its whole target, and its totals are exact.
pub proof fn law_unrounded_fill_meets_its_target(levels: Seq<PriceLevel>, target: Binary64)
    requires
        levels.len() <= usize::MAX,
        Binary64::of(false, 0).below(target),
        Fill::walk(levels, target).complete,
        unrounded(levels, target),
    ensures
        Fill::walk(levels, target).notional.units() == target.units(),
        exact_totals(usable(levels), Fill::walk(levels, target)),
{
    let best = usable(levels);
    let fill = Fill::walk(levels, target);
    let k = fill.levels as int;
    let p = pow2(1074);
    lemma_pow2_pos(1074);
    law_fill_takes_the_least_depth(levels, target);
    let before = swept(best.take(k - 1));
    let last = best[k - 1];
    let missing = target.difference(before.notional);
    let part = missing.quotient(last.price).units();
    lemma_sweep(best, k - 1);
    assert(exact_at(best, k - 1));
    lemma_all_usable(levels);
    assert(!worthless(last));
    let offered = last.price.product(last.quantity);
    assert(best.take(k).drop_last() =~= best.take(k - 1));
    assert(swept(best.take(k)).notional == before.notional.sum(offered));
    assert(reaches(best, k, target));
    law_order_is_by_value(target, before.notional.sum(offered));
    law_order_is_by_value(target, before.notional);
    law_order_is_by_value(Binary64::of(false, 0), target);
    if k > 1 {
        assert(!reaches(best, k - 1, target));
    } else {
        assert(best.take(0) =~= Seq::<PriceLevel>::empty());
    }
    assert(0 < missing.units() <= offered.units());
    let price = last.price.units();
    let quantity = last.quantity.units();
    assert(price > 0) by {
        lemma_magnitude_increases(0, last.price.code());
    }
    assert(0 <= part <= quantity) by (nonlinear_arith)
        requires
            price > 0,
            p > 0,
            0 < missing.units() <= offered.units(),
            part * price == missing.units() * p,
            offered.units() * p == price * quantity,
    ;
    let amounts = amounts_of(best, fill);
    assert(amounts[k - 1] == part);
    assert forall|i: int| 0 <= i < best.len() implies 0 <= #[trigger] amounts[i]
        <= best[i].quantity.units() by {
        assert(!worthless(best[i]));
        if best[i].quantity.code() > 0 {
            lemma_magnitude_increases(0, best[i].quantity.code());
        }
    }
    assert(in_order(best, amounts, k - 1));
    lemma_worth_of_amounts(best, fill, best.len() as int);
    assert(amounts.take(best.len() as int) =~= amounts);
    assert(worth(best, amounts) == fill.notional.units() * p) by {
        let a = before.notional.units();
        let m = missing.units();
        assert((a + m) * p == a * p + m * p) by (nonlinear_arith);
        assert(price * part == part * price) by (nonlinear_arith);
    }
}

proof fn lemma_all_usable(levels: Seq<PriceLevel>)
    ensures
        forall|i: int| 0 <= i < usable(levels).len() ==> !worthless(#[trigger] usable(levels)[i]),
{
    assert forall|i: int| 0 <= i < usable(levels).len() implies !worthless(
        #[trigger] usable(levels)[i],
    ) by {
        levels.lemma_filter_pred(|level: PriceLevel| !worthless(level), i);
    }
}

proof fn lemma_worth_of_amounts(levels: Seq<PriceLevel>, fill: Fill, n: int)
    requires
        0 < fill.levels <= levels.len(),
        0 <= n <= levels.len(),
    ensures
        n < fill.levels ==> worth(levels, amounts_of(levels, fill).take(n)) == worth(
            levels,
            full_amounts(levels.take(n)),
        ),
        n >= fill.levels ==> worth(levels, amounts_of(levels, fill).take(n)) == worth(
            levels,
            full_amounts(levels.take(fill.levels - 1)),
        ) + levels[fill.levels - 1].price.units() * amounts_of(levels, fill)[fill.levels - 1],
    decreases n,
{
    let amounts = amounts_of(levels, fill);
    if n == 0 {
        assert(amounts.take(0) =~= full_amounts(levels.take(0)));
    } else {
        lemma_worth_of_amounts(levels, fill, n - 1);
        assert(amounts.take(n).drop_last() =~= amounts.take(n - 1));
        assert(full_amounts(levels.take(n)).drop_last() =~= full_amounts(levels.take(n - 1)));
        if n > fill.levels {
            let price = levels[n - 1].price.units();
            assert(price * 0 == 0);
        }
    }
}

/// A fill without rounding is the best there is: no allotment that is worth the target
/// buys more than it, or gets by with selling less.
pub proof fn law_unrounded_fill_is_best(
    book: OrderBook,
    is_buy: bool,
    target: Binary64,
    other: Seq<int>,
)
    requires
        book.wf(),
        book.facing(is_buy).len() <= usize::MAX,
        Binary64::of(false, 0).below(target),
        Fill::walk(book.facing(is_buy), target).complete,
        unrounded(book.facing(is_buy), target),
        is_allotment(usable(book.facing(is_buy)), other),
        worth(usable(book.facing(is_buy)), other) == target.units() * pow2(1074),
    ensures
        is_buy ==> allotted(other) <= Fill::walk(book.facing(true), target).quantity.units(),
        !is_buy ==> allotted(other) >= Fill::walk(book.facing(false), target).quantity.units(),
{
    law_fill_takes_the_least_depth(book.facing(is_buy), target);
    law_unrounded_fill_meets_its_target(book.facing(is_buy), target);
    law_exact_fill_is_best(book, is_buy, target, other);
}

} // verus!
