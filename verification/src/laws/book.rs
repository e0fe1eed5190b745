//! Laws of the order book.

use crate::binary64::Binary64;
use crate::book::{entry_values, snapshot_side, updated_by_entry, updated_side, OrderBook};
use crate::decimal::parsed;
use crate::impact::Fill;
use crate::laws::numbers::{law_order_is_by_value, law_rounding_is_total, law_sums_grow};
use crate::levels::{
    ascending, highest_level, is_highest, is_lowest, keyed_by_price, lemma_ascending_ends,
    lemma_finite_has_key_list, lists_keys, lowest_level, PriceLevel, PriceLevels,
};
use crate::rounding::{lemma_magnitude_increases, magnitude, INFINITY_CODE};
use vstd::arithmetic::power2::{lemma_pow2_pos, pow2};
use vstd::prelude::*;

verus! {

/// One row of an update: texts that denote numbers set the level at that price, which
/// keeps the price that it was made with, or remove it when the quantity is zero; other
/// texts change nothing.
pub proof fn law_one_row_of_an_update(side: Map<u64, PriceLevel>, row: [String; 2])
    ensures
        parsed(row@[0]@) is None || parsed(row@[1]@) is None ==> updated_side(side, seq![row])
            == side,
        forall|price: Binary64, quantity: Binary64| #[trigger]
            row_denotes(row, price, quantity) ==> {
                let after = updated_side(side, seq![row]);
                let key = price.order_key();
                &&& forall|k: u64|
                    k != key ==> #[trigger] after.contains_key(k) == side.contains_key(k)
                        && after[k] == side[k]
                &&& after.contains_key(key) <==> quantity.bits != 0 && quantity.bits
                    != 0x8000_0000_0000_0000
                &&& after.contains_key(key) ==> after[key].quantity == quantity
                &&& after.contains_key(key) ==> after[key].price == if side.contains_key(key) {
                    side[key].price
                } else {
                    price
                }
            },
{
    assert(seq![row].drop_last() =~= Seq::<[String; 2]>::empty());
    assert(updated_side(side, seq![row]) == updated_by_entry(
        updated_side(side, seq![row].drop_last()),
        row,
    ));
    assert(updated_side(side, Seq::<[String; 2]>::empty()) == side);
}

/// A snapshot is what an update makes of an empty side, once the rows without a quantity
/// above zero are left out.
pub proof fn law_snapshot_is_an_update_of_nothing(rows: Seq<[String; 2]>)
    ensures
        snapshot_side(rows) == updated_side(
            Map::empty(),
            rows.filter(
                |row: [String; 2]|
                    parsed(row@[1]@) matches Some(quantity) && Binary64::of(false, 0).below(
                        quantity,
                    ),
            ),
        ),
    decreases rows.len(),
{
    let keep = |row: [String; 2]|
        parsed(row@[1]@) matches Some(quantity) && Binary64::of(false, 0).below(quantity);
    if rows.len() == 0 {
        reveal(Seq::filter);
        assert(rows.filter(keep) =~= rows);
    } else {
        let head = rows.drop_last();
        let last = rows.last();
        law_snapshot_is_an_update_of_nothing(head);
        head.lemma_filter_push(last, keep);
        assert(head.push(last) =~= rows);
        if keep(last) {
            assert(rows.filter(keep).drop_last() =~= head.filter(keep));
        }
    }
}

/// A snapshot holds only levels of positive quantity, each at the key of its price.
pub proof fn law_snapshot_levels_are_positive(entries: Seq<[String; 2]>)
    ensures
        keyed_by_price(snapshot_side(entries)),
        forall|k: u64| #[trigger]
            snapshot_side(entries).contains_key(k) ==> snapshot_side(entries)[k].quantity.positive(),
    decreases entries.len(),
{
    if entries.len() > 0 {
        law_snapshot_levels_are_positive(entries.drop_last());
    }
}

/// The two texts of a row denote these numbers.
pub open spec fn row_denotes(row: [String; 2], price: Binary64, quantity: Binary64) -> bool {
    parsed(row@[0]@) == Some(price) && parsed(row@[1]@) == Some(quantity)
}

/// A row of a snapshot that makes a level at a key: both texts are numbers, the first at
/// that key and the second above zero.
pub open spec fn makes_level(row: [String; 2], key: u64) -> bool {
    match (parsed(row@[0]@), parsed(row@[1]@)) {
        (Some(price), Some(quantity)) => price.order_key() == key && Binary64::of(false, 0).below(
            quantity,
        ),
        _ => false,
    }
}

/// One more row of a snapshot.
proof fn lemma_one_more_row(rows: Seq<[String; 2]>, key: u64)
    requires
        rows.len() > 0,
    ensures
        ({
            let before = snapshot_side(rows.drop_last());
            let after = snapshot_side(rows);
            &&& makes_level(rows.last(), key) ==> after.contains_key(key) && Some(
                after[key].quantity,
            ) == parsed(rows.last()@[1]@)
            &&& !makes_level(rows.last(), key) ==> after.contains_key(key) == before.contains_key(
                key,
            ) && after[key] == before[key]
        }),
{
}

/// A snapshot has a level exactly where some row of that price has a positive quantity.
pub proof fn law_positive_rows_make_the_levels(rows: Seq<[String; 2]>, key: u64)
    ensures
        snapshot_side(rows).contains_key(key) <==> exists|i: int|
            0 <= i < rows.len() && makes_level(#[trigger] rows[i], key),
    decreases rows.len(),
{
    if rows.len() > 0 {
        let head = rows.drop_last();
        law_positive_rows_make_the_levels(head, key);
        lemma_one_more_row(rows, key);
        if snapshot_side(head).contains_key(key) {
            let i = choose|i: int| 0 <= i < head.len() && makes_level(#[trigger] head[i], key);
            assert(makes_level(rows[i], key));
        }
        if makes_level(rows.last(), key) {
            assert(makes_level(rows[rows.len() - 1], key));
        }
        assert forall|i: int| 0 <= i < head.len() && makes_level(
            #[trigger] rows[i],
            key,
        ) implies snapshot_side(head).contains_key(key) by {
            assert(makes_level(head[i], key));
        }
    }
}

/// The last row of a price with a positive quantity gives the level its quantity.
pub proof fn law_last_positive_row_decides(rows: Seq<[String; 2]>, i: int, key: u64)
    requires
        0 <= i < rows.len(),
        makes_level(rows[i], key),
        forall|j: int| i < j < rows.len() ==> !makes_level(#[trigger] rows[j], key),
    ensures
        snapshot_side(rows).contains_key(key),
        Some(snapshot_side(rows)[key].quantity) == parsed(rows[i]@[1]@),
        entry_values(rows[i]) matches Some(values) && snapshot_side(rows)[key].quantity == values.1,
    decreases rows.len(),
{
    lemma_one_more_row(rows, key);
    if i < rows.len() - 1 {
        let head = rows.drop_last();
        assert(!makes_level(rows[rows.len() - 1], key));
        assert forall|j: int| i < j < head.len() implies !makes_level(#[trigger] head[j], key) by {
            assert(!makes_level(rows[j], key));
        }
        law_last_positive_row_decides(head, i, key);
    }
}

/// A row whose texts denote a price and a quantity above zero leaves that quantity at that
/// price, when no later row of the price has one.
pub proof fn law_row_of_a_snapshot(
    rows: Seq<[String; 2]>,
    i: int,
    price: Binary64,
    quantity: Binary64,
)
    requires
        0 <= i < rows.len(),
        row_denotes(rows[i], price, quantity),
        Binary64::of(false, 0).below(quantity),
        forall|j: int|
            i < j < rows.len() ==> !makes_level(#[trigger] rows[j], price.order_key()),
    ensures
        snapshot_side(rows).contains_key(price.order_key()),
        snapshot_side(rows)[price.order_key()].quantity == quantity,
{
    assert(makes_level(rows[i], price.order_key()));
    law_last_positive_row_decides(rows, i, price.order_key());
}

/// Every quantity is positive.
pub open spec fn all_positive(side: Map<u64, PriceLevel>) -> bool {
    forall|k: u64| #[trigger] side.contains_key(k) ==> side[k].quantity.positive()
}

/// The quantity of an entry is zero or above, if the entry is numeric.
pub open spec fn not_negative(entry: [String; 2]) -> bool {
    parsed(entry@[0]@) is Some && parsed(entry@[1]@) is Some ==> Binary64::of(false, 0).at_most(
        parsed(entry@[1]@)->0,
    )
}

/// An update whose quantities are not negative keeps every stored quantity positive.
pub proof fn law_updates_keep_quantities_positive(
    side: Map<u64, PriceLevel>,
    entries: Seq<[String; 2]>,
)
    requires
        all_positive(side),
        forall|i: int| 0 <= i < entries.len() ==> not_negative(#[trigger] entries[i]),
    ensures
        all_positive(updated_side(side, entries)),
    decreases entries.len(),
{
    if entries.len() > 0 {
        let head = entries.drop_last();
        assert forall|i: int| 0 <= i < head.len() implies not_negative(#[trigger] head[i]) by {
            assert(not_negative(entries[i]));
        }
        law_updates_keep_quantities_positive(side, head);
        assert(not_negative(entries[entries.len() - 1]));
    }
}

/// Applying two lists of entries in turn is applying them as one.
pub proof fn law_updates_compose(
    side: Map<u64, PriceLevel>,
    first: Seq<[String; 2]>,
    second: Seq<[String; 2]>,
)
    ensures
        updated_side(updated_side(side, first), second) == updated_side(side, first + second),
    decreases second.len(),
{
    if second.len() == 0 {
        assert(first + second =~= first);
    } else {
        law_updates_compose(side, first, second.drop_last());
        assert((first + second).drop_last() =~= first + second.drop_last());
        assert((first + second).last() == second.last());
    }
}

/// The last entry for a price decides: a zero quantity leaves no level, any other
/// leaves that quantity.
pub proof fn law_last_entry_decides(
    side: Map<u64, PriceLevel>,
    entries: Seq<[String; 2]>,
    i: int,
    price: Binary64,
    quantity: Binary64,
)
    requires
        0 <= i < entries.len(),
        row_denotes(entries[i], price, quantity),
        forall|j: int|
            i < j < entries.len() ==> !touches(#[trigger] entries[j], price.order_key()),
    ensures
        quantity.is_zero() ==> !updated_side(side, entries).contains_key(price.order_key()),
        !quantity.is_zero() ==> {
            &&& updated_side(side, entries).contains_key(price.order_key())
            &&& updated_side(side, entries)[price.order_key()].quantity == quantity
        },
    decreases entries.len(),
{
    if i < entries.len() - 1 {
        let head = entries.drop_last();
        assert(!touches(entries[entries.len() - 1], price.order_key()));
        assert forall|j: int| i < j < head.len() implies !touches(
            #[trigger] head[j],
            price.order_key(),
        ) by {
            assert(!touches(entries[j], price.order_key()));
        }
        law_last_entry_decides(side, head, i, price, quantity);
    }
}

/// Whether an entry speaks of the level at a key.
pub open spec fn touches(entry: [String; 2], key: u64) -> bool {
    match (parsed(entry@[0]@), parsed(entry@[1]@)) {
        (Some(price), Some(_)) => price.order_key() == key,
        _ => false,
    }
}

/// A level that no entry speaks of stays as it is.
pub proof fn law_other_levels_stay(
    side: Map<u64, PriceLevel>,
    entries: Seq<[String; 2]>,
    key: u64,
)
    requires
        forall|j: int| 0 <= j < entries.len() ==> !touches(#[trigger] entries[j], key),
    ensures
        updated_side(side, entries).contains_key(key) == side.contains_key(key),
        side.contains_key(key) ==> updated_side(side, entries)[key] == side[key],
    decreases entries.len(),
{
    if entries.len() > 0 {
        let head = entries.drop_last();
        assert forall|j: int| 0 <= j < head.len() implies !touches(#[trigger] head[j], key) by {
            assert(!touches(entries[j], key));
        }
        assert(!touches(entries[entries.len() - 1], key));
        law_other_levels_stay(side, head, key);
    }
}

/// The level at a key, if there is one.
pub open spec fn level_at(side: Map<u64, PriceLevel>, key: u64) -> Option<PriceLevel> {
    if side.contains_key(key) {
        Some(side[key])
    } else {
        None
    }
}

/// What a list of entries does to the level at one key.
enum Effect {
    /// Leaves it alone.
    Keep,
    /// Sets its quantity, and its price where there was no level.
    Quantity(Binary64, Binary64),
    /// Makes it this, whatever it was.
    Exactly(Option<PriceLevel>),
}

spec fn effect_on(level: Option<PriceLevel>, effect: Effect) -> Option<PriceLevel> {
    match effect {
        Effect::Keep => level,
        Effect::Quantity(price, quantity) => match level {
            Some(old_level) => Some(PriceLevel { price: old_level.price, quantity }),
            None => Some(PriceLevel { price, quantity }),
        },
        Effect::Exactly(result) => result,
    }
}

/// An update acts on each level by one of three effects.
proof fn lemma_effect(entries: Seq<[String; 2]>, key: u64) -> (effect: Effect)
    ensures
        forall|side: Map<u64, PriceLevel>|
            level_at(#[trigger] updated_side(side, entries), key) == effect_on(
                level_at(side, key),
                effect,
            ),
    decreases entries.len(),
{
    if entries.len() == 0 {
        Effect::Keep
    } else {
        let before = lemma_effect(entries.drop_last(), key);
        let entry = entries.last();
        let effect = if !touches(entry, key) {
            before
        } else {
            let price = parsed(entry@[0]@)->0;
            let quantity = parsed(entry@[1]@)->0;
            if quantity.is_zero() {
                Effect::Exactly(None)
            } else {
                match before {
                    Effect::Keep => Effect::Quantity(price, quantity),
                    Effect::Quantity(first, _) => Effect::Quantity(first, quantity),
                    Effect::Exactly(Some(level)) => Effect::Exactly(
                        Some(PriceLevel { price: level.price, quantity }),
                    ),
                    Effect::Exactly(None) => Effect::Exactly(Some(PriceLevel { price, quantity })),
                }
            }
        };
        assert forall|side: Map<u64, PriceLevel>|
            level_at(#[trigger] updated_side(side, entries), key) == effect_on(
                level_at(side, key),
                effect,
            ) by {
            let middle = updated_side(side, entries.drop_last());
            assert(level_at(middle, key) == effect_on(level_at(side, key), before));
            assert(updated_side(side, entries) == updated_by_entry(middle, entry));
        }
        effect
    }
}

/// Applying the same entries again changes nothing.
pub proof fn law_update_is_idempotent(side: Map<u64, PriceLevel>, entries: Seq<[String; 2]>)
    ensures
        updated_side(updated_side(side, entries), entries) == updated_side(side, entries),
{
    let once = updated_side(side, entries);
    let twice = updated_side(once, entries);
    assert forall|key: u64| #[trigger] twice.dom().contains(key) == once.dom().contains(key) by {
        let effect = lemma_effect(entries, key);
        assert(level_at(twice, key) == level_at(once, key));
    }
    assert forall|key: u64| #[trigger] twice.dom().contains(key) implies twice[key] == once[key] by {
        let effect = lemma_effect(entries, key);
        assert(level_at(twice, key) == level_at(once, key));
    }
    assert(twice =~= once);
}

/// A side that has levels has a lowest and a highest one; no other level is priced
/// below the one or above the other.
pub proof fn law_best_levels_are_extreme(side: PriceLevels)
    requires
        side.wf(),
    ensures
        side@.len() == 0 <==> lowest_level(side@) is None,
        side@.len() == 0 <==> highest_level(side@) is None,
        lowest_level(side@) matches Some(low) ==> side@.contains_key(low.price.order_key())
            && side@[low.price.order_key()] == low,
        highest_level(side@) matches Some(high) ==> side@.contains_key(high.price.order_key())
            && side@[high.price.order_key()] == high,
        lowest_level(side@) matches Some(low) ==> forall|k: u64| #[trigger]
            side@.contains_key(k) ==> low.price.order_key() <= k && !side@[k].price.below(low.price),
        highest_level(side@) matches Some(high) ==> forall|k: u64| #[trigger]
            side@.contains_key(k) ==> k <= high.price.order_key() && !high.price.below(
                side@[k].price,
            ),
{
    side.lemma_finite();
    let levels = side@;
    lemma_ascending_ends(levels);
    lemma_finite_has_key_list(levels);
    let keys = choose|keys: Seq<u64>| lists_keys(levels, keys);
    assert(ascending(levels).len() == keys.len());
    if keys.len() > 0 {
        assert(levels.contains_key(keys[0]));
        assert(levels.dom().contains(keys[0]));
        let low = choose|key: u64| is_lowest(levels, key);
        let high = choose|key: u64| is_highest(levels, key);
        assert forall|k: u64| #[trigger] levels.contains_key(k) implies low <= k && k <= high
            && !levels[k].price.below(levels[low].price) && !levels[high].price.below(
            levels[k].price,
        ) by {
            assert(levels[k].price.order_key() == k);
            assert(levels[low].price.order_key() == low);
            assert(levels[high].price.order_key() == high);
        }
    } else {
        assert(levels.dom() =~= Set::empty()) by {
            assert forall|k: u64| !levels.dom().contains(k) by {
                if levels.contains_key(k) {
                    assert(keys.contains(k));
                }
            }
        }
    }
}

/// A level whose price, quantity or their product is zero or below.
pub open spec fn worthless(level: PriceLevel) -> bool {
    let zero = Binary64::of(false, 0);
    ||| level.price.at_most(zero)
    ||| level.quantity.at_most(zero)
    ||| level.price.product(level.quantity).at_most(zero)
}

/// The levels that are taken into account.
pub open spec fn usable(levels: Seq<PriceLevel>) -> Seq<PriceLevel> {
    levels.filter(|level: PriceLevel| !worthless(level))
}

/// A walk takes no more levels than there are, and all of the usable ones when they
/// do not reach the target.
pub proof fn law_thin_book_is_used_up(levels: Seq<PriceLevel>, target: Binary64)
    requires
        levels.len() <= usize::MAX,
    ensures
        Fill::walk(levels, target).levels <= usable(levels).len(),
        !Fill::walk(levels, target).complete ==> Fill::walk(levels, target).levels == usable(
            levels,
        ).len(),
    decreases levels.len(),
{
    let keep = |level: PriceLevel| !worthless(level);
    if levels.len() == 0 {
        reveal(Seq::filter);
    } else {
        let head = levels.drop_last();
        law_thin_book_is_used_up(head, target);
        head.lemma_filter_push(levels.last(), keep);
        assert(head.push(levels.last()) =~= levels);
        assert(usable(head).len() <= head.len()) by {
            head.lemma_filter_len(keep);
        }
    }
}

/// The worst price of a fill is that of the last level it took: the levels after it
/// are not taken or not usable.
pub proof fn law_worst_price_is_the_last_taken(levels: Seq<PriceLevel>, target: Binary64) -> (i:
    int)
    requires
        levels.len() <= usize::MAX,
        Fill::walk(levels, target).levels > 0,
    ensures
        0 <= i < levels.len(),
        !worthless(levels[i]),
        Fill::walk(levels, target).worst_price == levels[i].price,
        Fill::walk(levels.take(i + 1), target) == Fill::walk(levels, target),
    decreases levels.len(),
{
    let head = levels.drop_last();
    let before = Fill::walk(head, target);
    if before.complete || worthless(levels.last()) {
        let i = law_worst_price_is_the_last_taken(head, target);
        assert(levels.take(i + 1) =~= head.take(i + 1));
        i
    } else {
        assert(levels.take(levels.len() as int) =~= levels);
        levels.len() - 1
    }
}

/// The levels that an order meets come best price first: a buy meets rising asks, a
/// sell falling bids.
pub proof fn law_best_prices_come_first(book: OrderBook, is_buy: bool, i: int, j: int)
    requires
        book.wf(),
        0 <= i < j < book.facing(is_buy).len(),
    ensures
        is_buy ==> book.facing(true)[i].price.order_key() < book.facing(true)[j].price.order_key(),
        !is_buy ==> book.facing(false)[i].price.order_key() > book.facing(
            false,
        )[j].price.order_key(),
{
    if is_buy {
        lemma_ascending_is_sorted(book.asks, i, j);
    } else {
        let n = ascending(book.bids@).len();
        lemma_ascending_is_sorted(book.bids, n - 1 - j, n - 1 - i);
    }
}

/// The worst price of an order is the worst of those it pays: a buy pays no higher
/// one, a sell no lower one.
pub proof fn law_worst_price_is_worst(book: OrderBook, is_buy: bool, target: Binary64) -> (i: int)
    requires
        book.wf(),
        book.facing(is_buy).len() <= usize::MAX,
        Fill::walk(book.facing(is_buy), target).levels > 0,
    ensures
        0 <= i < book.facing(is_buy).len(),
        Fill::walk(book.facing(is_buy), target) == Fill::walk(
            book.facing(is_buy).take(i + 1),
            target,
        ),
        Fill::walk(book.facing(is_buy), target).worst_price == book.facing(is_buy)[i].price,
        forall|j: int|
            0 <= j < i ==> if is_buy {
                (#[trigger] book.facing(is_buy)[j]).price.order_key() < book.facing(
                    is_buy,
                )[i].price.order_key()
            } else {
                book.facing(is_buy)[j].price.order_key() > book.facing(
                    is_buy,
                )[i].price.order_key()
            },
{
    let levels = book.facing(is_buy);
    let i = law_worst_price_is_the_last_taken(levels, target);
    assert forall|j: int| 0 <= j < i implies if is_buy {
        (#[trigger] levels[j]).price.order_key() < levels[i].price.order_key()
    } else {
        levels[j].price.order_key() > levels[i].price.order_key()
    } by {
        law_best_prices_come_first(book, is_buy, j, i);
    }
    i
}

proof fn lemma_ascending_is_sorted(side: PriceLevels, i: int, j: int)
    requires
        side.wf(),
        0 <= i < j < ascending(side@).len(),
    ensures
        ascending(side@)[i].price.order_key() < ascending(side@)[j].price.order_key(),
{
    side.lemma_finite();
    lemma_finite_has_key_list(side@);
    let keys = choose|keys: Seq<u64>| lists_keys(side@, keys);
    assert(side@.contains_key(keys[i]));
    assert(side@.contains_key(keys[j]));
}

/// A usable level has a positive price and a positive quantity, or holds a NaN.
pub proof fn law_usable_levels_are_positive(level: PriceLevel)
    requires
        !worthless(level),
    ensures
        level.price.positive() || level.price.is_nan(),
        level.quantity.positive() || level.quantity.is_nan(),
{
}

/// Levels that are not usable make no difference to an order.
pub proof fn law_only_usable_levels_are_read(levels: Seq<PriceLevel>, target: Binary64)
    ensures
        Fill::walk(levels, target) == Fill::walk(usable(levels), target),
    decreases levels.len(),
{
    if levels.len() == 0 {
        reveal(Seq::filter);
        assert(usable(levels) =~= levels);
    } else {
        lemma_usable_last(levels);
        law_only_usable_levels_are_read(levels.drop_last(), target);
        if !worthless(levels.last()) {
            assert(usable(levels).drop_last() =~= usable(levels.drop_last()));
        }
    }
}

/// An estimate reads one side of the book only, and of that only the usable levels.
pub proof fn law_estimate_reads_one_side(
    a: OrderBook,
    b: OrderBook,
    is_buy: bool,
    notional_usd: Binary64,
    mid_price: Binary64,
)
    ensures
        is_buy && a.asks@ == b.asks@ ==> a.estimate(notional_usd, true, mid_price) == b.estimate(
            notional_usd,
            true,
            mid_price,
        ),
        !is_buy && a.bids@ == b.bids@ ==> a.estimate(notional_usd, false, mid_price) == b.estimate(
            notional_usd,
            false,
            mid_price,
        ),
        usable(a.facing(is_buy)) == usable(b.facing(is_buy)) ==> a.estimate(
            notional_usd,
            is_buy,
            mid_price,
        ) == b.estimate(notional_usd, is_buy, mid_price),
{
    law_only_usable_levels_are_read(a.facing(is_buy), notional_usd);
    law_only_usable_levels_are_read(b.facing(is_buy), notional_usd);
}

proof fn lemma_usable_last(levels: Seq<PriceLevel>)
    requires
        levels.len() > 0,
    ensures
        usable(levels) == if worthless(levels.last()) {
            usable(levels.drop_last())
        } else {
            usable(levels.drop_last()).push(levels.last())
        },
{
    let keep = |level: PriceLevel| !worthless(level);
    levels.drop_last().lemma_filter_push(levels.last(), keep);
    assert(levels.drop_last().push(levels.last()) =~= levels);
}

/// The fill that takes all of every level.
pub open spec fn swept(levels: Seq<PriceLevel>) -> Fill
    decreases levels.len(),
{
    if levels.len() == 0 {
        let zero = Binary64::of(false, 0);
        Fill { quantity: zero, notional: zero, worst_price: zero, levels: 0, complete: false }
    } else {
        let before = swept(levels.drop_last());
        let last = levels.last();
        Fill {
            quantity: before.quantity.sum(last.quantity),
            notional: before.notional.sum(last.price.product(last.quantity)),
            worst_price: last.price,
            levels: (before.levels + 1) as usize,
            complete: false,
        }
    }
}

/// The first `k` levels together are worth the target.
pub open spec fn reaches(levels: Seq<PriceLevel>, k: int, target: Binary64) -> bool {
    target.at_most(swept(levels.take(k)).notional)
}

/// An order is filled exactly when some number of the best usable levels is worth it.
/// It then takes the least such number: all of each but the last, and of that what the
/// target is above the worth of those before it, at its price.  An order that is not filled takes all of every usable level.
pub proof fn law_fill_takes_the_least_depth(levels: Seq<PriceLevel>, target: Binary64)
    requires
        levels.len() <= usize::MAX,
    ensures
        ({
            let best = usable(levels);
            let fill = Fill::walk(levels, target);
            &&& fill.complete <==> exists|k: int|
                0 < k <= best.len() && #[trigger] reaches(best, k, target)
            &&& fill.complete ==> {
                &&& 0 < fill.levels <= best.len()
                &&& reaches(best, fill.levels as int, target)
                &&& forall|k: int| 0 < k < fill.levels ==> !#[trigger] reaches(best, k, target)
                &&& fill == swept(best.take(fill.levels - 1)).take(best[fill.levels - 1], target)
                &&& fill.worst_price == best[fill.levels - 1].price
                &&& fill.quantity == swept(best.take(fill.levels - 1)).quantity.sum(
                    target.difference(swept(best.take(fill.levels - 1)).notional).quotient(
                        best[fill.levels - 1].price,
                    ),
                )
                &&& fill.notional == swept(best.take(fill.levels - 1)).notional.sum(
                    target.difference(swept(best.take(fill.levels - 1)).notional),
                )
            }
            &&& !fill.complete ==> fill == swept(best)
        }),
        swept(usable(levels)).levels == usable(levels).len(),
        usable(levels).len() <= levels.len(),
    decreases levels.len(),
{
    let best = usable(levels);
    let fill = Fill::walk(levels, target);
    if levels.len() == 0 {
        reveal(Seq::filter);
        assert(best =~= levels);
    } else {
        let head = levels.drop_last();
        let known = usable(head);
        let before = Fill::walk(head, target);
        law_fill_takes_the_least_depth(head, target);
        lemma_usable_last(levels);
        if !worthless(levels.last()) {
            assert(best.drop_last() =~= known);
            assert(best.take(best.len() as int) =~= best);
            assert forall|k: int| 0 < k <= known.len() implies reaches(known, k, target)
                == #[trigger] reaches(best, k, target) by {
                assert(known.take(k) =~= best.take(k));
            }
            if before.complete {
                assert(reaches(best, before.levels as int, target));
                assert(best.take(before.levels - 1) =~= known.take(before.levels - 1));
                assert(best[before.levels - 1] == known[before.levels - 1]);
            } else {
                assert forall|k: int| 0 < k <= known.len() implies !#[trigger] reaches(
                    best,
                    k,
                    target,
                ) by {
                    assert(!reaches(known, k, target));
                }
                assert(best.take(best.len() - 1) =~= known);
                assert(fill.complete == reaches(best, best.len() as int, target));
            }
        }
    }
}

/// No usable level holds a NaN.
pub open spec fn numeric(levels: Seq<PriceLevel>) -> bool {
    forall|i: int|
        0 <= i < levels.len() ==> !(#[trigger] levels[i]).price.is_nan()
            && !levels[i].quantity.is_nan()
}

/// An order is filled exactly when the whole usable depth is worth it.  (A NaN among
/// the levels makes that worth a NaN.)
pub proof fn law_filled_when_depth_reaches(levels: Seq<PriceLevel>, target: Binary64)
    requires
        levels.len() <= usize::MAX,
        target.positive(),
        numeric(usable(levels)),
    ensures
        Fill::walk(levels, target).complete <==> target.at_most(swept(usable(levels)).notional),
{
    let best = usable(levels);
    law_fill_takes_the_least_depth(levels, target);
    assert forall|i: int| 0 <= i < best.len() implies !worthless(#[trigger] best[i]) by {
        levels.lemma_filter_pred(|level: PriceLevel| !worthless(level), i);
    }
    assert(best.take(best.len() as int) =~= best);
    if Fill::walk(levels, target).complete {
        let k = Fill::walk(levels, target).levels as int;
        lemma_depth_grows(best, k);
    } else if best.len() > 0 {
        assert(!reaches(best, best.len() as int, target));
    }
}

proof fn lemma_depth_grows(levels: Seq<PriceLevel>, k: int)
    requires
        0 <= k <= levels.len(),
        numeric(levels),
        forall|i: int| 0 <= i < levels.len() ==> !worthless(#[trigger] levels[i]),
    ensures
        swept(levels.take(k)).notional.at_most(swept(levels).notional),
        !swept(levels).notional.negative(),
        !swept(levels).notional.is_nan(),
    decreases levels.len(),
{
    if levels.len() > 0 {
        let head = levels.drop_last();
        let last = levels[levels.len() - 1];
        assert(!worthless(last) && !last.price.is_nan() && !last.quantity.is_nan());
        assert forall|i: int| 0 <= i < head.len() implies !worthless(#[trigger] head[i])
            && !head[i].price.is_nan() && !head[i].quantity.is_nan() by {
            assert(!worthless(levels[i]));
        }
        lemma_depth_grows(
            head,
            if k < levels.len() {
                k
            } else {
                0
            },
        );
        let offered = last.price.product(last.quantity);
        assert(!offered.is_nan()) by {
            let d = pow2(1074);
            lemma_pow2_pos(1074);
            law_rounding_is_total(magnitude(last.price.code()) * magnitude(last.quantity.code()), d);
        }
        law_sums_grow(swept(head).notional, offered);
        if k < levels.len() {
            assert(levels.take(k) =~= head.take(k));
        } else {
            assert(levels.take(k) =~= levels);
        }
    }
}

/// The levels come best price first.
pub open spec fn best_first(levels: Seq<PriceLevel>, is_buy: bool) -> bool {
    forall|i: int, j: int|
        0 <= i < j < levels.len() ==> if is_buy {
            (#[trigger] levels[i]).price.order_key() < (#[trigger] levels[j]).price.order_key()
        } else {
            levels[i].price.order_key() > levels[j].price.order_key()
        }
}

proof fn lemma_usable_best_first(levels: Seq<PriceLevel>, is_buy: bool)
    requires
        best_first(levels, is_buy),
    ensures
        best_first(usable(levels), is_buy),
        forall|i: int| 0 <= i < usable(levels).len() ==> levels.contains(#[trigger] usable(levels)[i]),
    decreases levels.len(),
{
    let best = usable(levels);
    if levels.len() == 0 {
        reveal(Seq::filter);
        assert(best =~= levels);
    } else {
        let head = levels.drop_last();
        let known = usable(head);
        assert(best_first(head, is_buy)) by {
            assert forall|i: int, j: int| 0 <= i < j < head.len() implies if is_buy {
                (#[trigger] head[i]).price.order_key() < (#[trigger] head[j]).price.order_key()
            } else {
                head[i].price.order_key() > head[j].price.order_key()
            } by {
                assert(levels[i] == head[i] && levels[j] == head[j]);
            }
        }
        lemma_usable_best_first(head, is_buy);
        lemma_usable_last(levels);
        let n = levels.len() - 1;
        assert forall|i: int| 0 <= i < best.len() implies levels.contains(#[trigger] best[i]) by {
            if i < known.len() {
                assert(head.contains(known[i]));
                let m = choose|m: int| 0 <= m < head.len() && head[m] == known[i];
                assert(levels[m] == best[i]);
            } else {
                assert(levels[n] == best[i]);
            }
        }
        assert forall|i: int, j: int| 0 <= i < j < best.len() implies if is_buy {
            (#[trigger] best[i]).price.order_key() < (#[trigger] best[j]).price.order_key()
        } else {
            best[i].price.order_key() > best[j].price.order_key()
        } by {
            if j < known.len() {
                assert(known[i] == best[i] && known[j] == best[j]);
            } else {
                assert(head.contains(known[i]));
                let m = choose|m: int| 0 <= m < head.len() && head[m] == known[i];
                assert(best[i] == levels[m] && best[j] == levels[n]);
            }
        }
    }
}

/// The sum of an allotment's quantities.
pub open spec fn allotted(amounts: Seq<int>) -> int
    decreases amounts.len(),
{
    if amounts.len() == 0 {
        0
    } else {
        allotted(amounts.drop_last()) + amounts.last()
    }
}

/// What an allotment is worth, exactly.
pub open spec fn worth(levels: Seq<PriceLevel>, amounts: Seq<int>) -> int
    decreases amounts.len(),
{
    if amounts.len() == 0 {
        0
    } else {
        worth(levels, amounts.drop_last()) + levels[amounts.len() - 1].price.units()
            * amounts.last()
    }
}

/// An amount for each level, none above what rests there.
pub open spec fn is_allotment(levels: Seq<PriceLevel>, amounts: Seq<int>) -> bool {
    &&& amounts.len() == levels.len()
    &&& forall|i: int|
        0 <= i < levels.len() ==> 0 <= #[trigger] amounts[i] <= levels[i].quantity.units()
}

/// All of every level before `last`, a part of that one, and nothing of the others.
pub open spec fn in_order(levels: Seq<PriceLevel>, amounts: Seq<int>, last: int) -> bool {
    &&& is_allotment(levels, amounts)
    &&& forall|i: int|
        0 <= i < levels.len() && i != last ==> #[trigger] amounts[i] == if i < last {
            levels[i].quantity.units()
        } else {
            0
        }
}

/// Prices and quantities are finite.
pub open spec fn finite_levels(levels: Seq<PriceLevel>) -> bool {
    forall|i: int|
        0 <= i < levels.len() ==> (#[trigger] levels[i]).price.code() < INFINITY_CODE
            && levels[i].quantity.code() < INFINITY_CODE
}

/// Taking the usable levels in order, as an order does up to its last one, is the best
/// there is: in exact amounts, no other allotment that is worth the same buys more, or
/// gets by with selling less.
pub proof fn law_no_allotment_does_better(
    book: OrderBook,
    is_buy: bool,
    target: Binary64,
    taken: Seq<int>,
    other: Seq<int>,
)
    requires
        book.wf(),
        book.facing(is_buy).len() <= usize::MAX,
        finite_levels(usable(book.facing(is_buy))),
        Fill::walk(book.facing(is_buy), target).levels > 0,
        in_order(
            usable(book.facing(is_buy)),
            taken,
            Fill::walk(book.facing(is_buy), target).levels - 1,
        ),
        is_allotment(usable(book.facing(is_buy)), other),
        worth(usable(book.facing(is_buy)), other) == worth(usable(book.facing(is_buy)), taken),
    ensures
        is_buy ==> allotted(other) <= allotted(taken),
        !is_buy ==> allotted(other) >= allotted(taken),
{
    let all = book.facing(is_buy);
    let levels = usable(all);
    let last = Fill::walk(all, target).levels - 1;
    law_thin_book_is_used_up(all, target);
    assert(best_first(all, is_buy)) by {
        assert forall|i: int, j: int| 0 <= i < j < all.len() implies if is_buy {
            (#[trigger] all[i]).price.order_key() < (#[trigger] all[j]).price.order_key()
        } else {
            all[i].price.order_key() > all[j].price.order_key()
        } by {
            law_best_prices_come_first(book, is_buy, i, j);
        }
    }
    lemma_usable_best_first(all, is_buy);
    all.lemma_filter_pred(|level: PriceLevel| !worthless(level), last);
    let price = levels[last].price;
    assert(price.units() > 0) by {
        lemma_magnitude_increases(0, price.code());
    }
    lemma_exchange(levels, last, is_buy, taken, other, levels.len() as int);
    assert(taken.take(levels.len() as int) =~= taken);
    assert(other.take(levels.len() as int) =~= other);
    let p = price.units();
    let more = allotted(other) - allotted(taken);
    if is_buy {
        assert(more <= 0) by (nonlinear_arith)
            requires
                p > 0,
                p * more <= 0,
        ;
    } else {
        assert(more >= 0) by (nonlinear_arith)
            requires
                p > 0,
                p * more >= 0,
        ;
    }
}

/// What the first `n` levels give up or gain, priced at the last level that is taken.
proof fn lemma_exchange(
    levels: Seq<PriceLevel>,
    last: int,
    is_buy: bool,
    taken: Seq<int>,
    other: Seq<int>,
    n: int,
)
    requires
        0 <= n <= levels.len(),
        0 <= last < levels.len(),
        best_first(levels, is_buy),
        finite_levels(levels),
        in_order(levels, taken, last),
        is_allotment(levels, other),
    ensures
        ({
            let gain = worth(levels, other.take(n)) - worth(levels, taken.take(n));
            let more = allotted(other.take(n)) - allotted(taken.take(n));
            if is_buy {
                levels[last].price.units() * more <= gain
            } else {
                levels[last].price.units() * more >= gain
            }
        }),
    decreases n,
{
    let p = levels[last].price.units();
    if n > 0 {
        let i = n - 1;
        lemma_exchange(levels, last, is_buy, taken, other, i);
        assert(other.take(n).drop_last() =~= other.take(i));
        assert(taken.take(n).drop_last() =~= taken.take(i));
        let q = levels[i].price.units();
        let x = other[i];
        let t = taken[i];
        law_order_is_by_value(levels[i].price, levels[last].price);
        law_order_is_by_value(levels[last].price, levels[i].price);
        assert(if is_buy {
            (i < last ==> q <= p && x <= t) && (i > last ==> q >= p && x >= t)
        } else {
            (i < last ==> q >= p && x <= t) && (i > last ==> q <= p && x >= t)
        });
        let a = allotted(other.take(i)) - allotted(taken.take(i));
        if is_buy {
            assert(p * (x - t) <= q * x - q * t) by (nonlinear_arith)
                requires
                    (q <= p && x <= t) || (q >= p && x >= t) || q == p,
            ;
        } else {
            assert(p * (x - t) >= q * x - q * t) by (nonlinear_arith)
                requires
                    (q >= p && x <= t) || (q <= p && x >= t) || q == p,
            ;
        }
        assert(p * (a + (x - t)) == p * a + p * (x - t)) by (nonlinear_arith);
    } else {
        assert(other.take(0) =~= Seq::<int>::empty());
        assert(taken.take(0) =~= Seq::<int>::empty());
        assert(p * 0 == 0);
    }
}

/// The amounts that a fill takes from each level in turn: all of every level before the
/// last one it takes, of that what is left of its quantity, and nothing of the others.
pub open spec fn amounts_of(levels: Seq<PriceLevel>, fill: Fill) -> Seq<int> {
    let last = fill.levels - 1;
    Seq::new(
        levels.len(),
        |i: int|
            if i < last {
                levels[i].quantity.units()
            } else if i == last {
                fill.quantity.units() - allotted(full_amounts(levels.take(last)))
            } else {
                0
            },
    )
}

/// All of every level.
pub open spec fn full_amounts(levels: Seq<PriceLevel>) -> Seq<int> {
    levels.map_values(|level: PriceLevel| level.quantity.units())
}

/// No rounding shows in the totals of a fill: its quantity, taken from the levels in
/// turn, is worth exactly its notional.
pub open spec fn exact_totals(levels: Seq<PriceLevel>, fill: Fill) -> bool {
    &&& in_order(levels, amounts_of(levels, fill), fill.levels - 1)
    &&& worth(levels, amounts_of(levels, fill)) == fill.notional.units() * pow2(1074)
}

/// Where no rounding shows in its totals, a fill is the best there is: no allotment that
/// is worth its notional buys more than its quantity, or gets by with selling less.
pub proof fn law_exact_fill_is_best(
    book: OrderBook,
    is_buy: bool,
    target: Binary64,
    other: Seq<int>,
)
    requires
        book.wf(),
        book.facing(is_buy).len() <= usize::MAX,
        finite_levels(usable(book.facing(is_buy))),
        Fill::walk(book.facing(is_buy), target).levels > 0,
        exact_totals(usable(book.facing(is_buy)), Fill::walk(book.facing(is_buy), target)),
        is_allotment(usable(book.facing(is_buy)), other),
        worth(usable(book.facing(is_buy)), other) == Fill::walk(
            book.facing(is_buy),
            target,
        ).notional.units() * pow2(1074),
    ensures
        is_buy ==> allotted(other) <= Fill::walk(book.facing(true), target).quantity.units(),
        !is_buy ==> allotted(other) >= Fill::walk(book.facing(false), target).quantity.units(),
{
    let all = book.facing(is_buy);
    let levels = usable(all);
    let fill = Fill::walk(all, target);
    law_thin_book_is_used_up(all, target);
    law_no_allotment_does_better(book, is_buy, target, amounts_of(levels, fill), other);
    lemma_amounts(levels, fill, levels.len() as int);
    let amounts = amounts_of(levels, fill);
    assert(amounts.take(levels.len() as int) =~= amounts);
}

proof fn lemma_amounts(levels: Seq<PriceLevel>, fill: Fill, n: int)
    requires
        0 < fill.levels <= levels.len(),
        0 <= n <= levels.len(),
    ensures
        n < fill.levels ==> allotted(amounts_of(levels, fill).take(n)) == allotted(
            full_amounts(levels.take(n)),
        ),
        n >= fill.levels ==> allotted(amounts_of(levels, fill).take(n)) == fill.quantity.units(),
    decreases n,
{
    let amounts = amounts_of(levels, fill);
    if n == 0 {
        assert(amounts.take(0) =~= full_amounts(levels.take(0)));
    } else {
        lemma_amounts(levels, fill, n - 1);
        assert(amounts.take(n).drop_last() =~= amounts.take(n - 1));
        assert(full_amounts(levels.take(n)).drop_last() =~= full_amounts(levels.take(n - 1)));
    }
}

} // verus!
