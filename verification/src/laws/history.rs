//! Laws of the trade and depth histories.

use crate::binary64::{lemma_zero_rounds_to_zero, Binary64};
use crate::book::OrderBook;
use crate::decimal::parsed;
use crate::depth::{newest, shows_book, DepthHistory, DepthSlice};
use crate::laws::numbers::{
    law_counts_are_in_range, lemma_between_powers, lemma_of_code, lemma_power_code,
};
use crate::levels::ascending;
use crate::rounding::{lemma_magnitude_increases, magnitude, round_code, INFINITY_CODE};
use crate::state::{with_trades, SharedState};
use crate::trades::{count_since, drop_older, trades_per_second, window_start, Trade, WsAggTrade};
use vstd::arithmetic::power2::{lemma_pow2_adds, lemma_pow2_pos, pow2};
use vstd::prelude::*;

verus! {

/// No trade is earlier than one before it.
pub open spec fn in_time_order(trades: Seq<Trade>) -> bool {
    forall|i: int, j: int|
        0 <= i < j < trades.len() ==> trades[i].timestamp_ms <= trades[j].timestamp_ms
}

/// Dropping takes away trades from the front only.
pub proof fn law_dropping_leaves_a_tail(trades: Seq<Trade>, cutoff: u64) -> (dropped: int)
    ensures
        0 <= dropped <= trades.len(),
        drop_older(trades, cutoff) == trades.skip(dropped),
        forall|i: int| 0 <= i < dropped ==> (#[trigger] trades[i]).timestamp_ms < cutoff,
        dropped < trades.len() ==> trades[dropped].timestamp_ms >= cutoff,
    decreases trades.len(),
{
    if trades.len() > 0 && trades[0].timestamp_ms < cutoff {
        let rest = trades.skip(1);
        let more = law_dropping_leaves_a_tail(rest, cutoff);
        assert(rest.skip(more) =~= trades.skip(more + 1));
        assert forall|i: int| 0 <= i < more + 1 implies (#[trigger] trades[i]).timestamp_ms
            < cutoff by {
            if i > 0 {
                assert(rest[i - 1] == trades[i]);
            }
        }
        more + 1
    } else {
        assert(trades.skip(0) =~= trades);
        0
    }
}

/// The first moment of a window of `window_ms` that ends at `time_ms`.
pub open spec fn opening(time_ms: u64, window_ms: u64) -> int {
    if time_ms < window_ms {
        0
    } else {
        time_ms - window_ms
    }
}

/// A window starts its length before its end, or at zero when it is longer.
pub proof fn law_start_of_a_window(time_ms: u64, window_ms: u64)
    ensures
        window_start(time_ms, window_ms) == opening(time_ms, window_ms),
{
}

/// Of trades that arrive in time order, exactly those within the window of the newest
/// are kept, and the newest is one of them.
pub proof fn law_window_is_kept(trades: Seq<Trade>, trade: Trade, window_ms: u64)
    requires
        in_time_order(trades.push(trade)),
    ensures
        ({
            let cutoff = opening(trade.timestamp_ms, window_ms);
            let kept = drop_older(
                trades.push(trade),
                window_start(trade.timestamp_ms, window_ms),
            );
            &&& in_time_order(kept)
            &&& kept.len() > 0
            &&& kept.last() == trade
            &&& forall|i: int| 0 <= i < kept.len() ==> (#[trigger] kept[i]).timestamp_ms >= cutoff
            &&& kept == trades.push(trade).filter(|t: Trade| t.timestamp_ms >= cutoff)
        }),
{
    let cutoff = window_start(trade.timestamp_ms, window_ms);
    let all = trades.push(trade);
    let dropped = law_dropping_leaves_a_tail(all, cutoff);
    let kept = drop_older(all, cutoff);
    if dropped == all.len() {
        assert(all[all.len() - 1].timestamp_ms < cutoff);
    }
    assert forall|i: int, j: int| 0 <= i < j < kept.len() implies kept[i].timestamp_ms
        <= kept[j].timestamp_ms by {
        assert(kept[i] == all[dropped + i]);
        assert(kept[j] == all[dropped + j]);
    }
    assert forall|i: int| 0 <= i < kept.len() implies (#[trigger] kept[i]).timestamp_ms
        >= cutoff by {
        assert(kept[i] == all[dropped + i]);
        assert(all[dropped].timestamp_ms <= all[dropped + i].timestamp_ms || i == 0);
    }
    lemma_filter_of_tail(all, cutoff, dropped);
    let exact = opening(trade.timestamp_ms, window_ms);
    assert((|t: Trade| t.timestamp_ms >= exact) =~= (|t: Trade| t.timestamp_ms >= cutoff));
}

/// Filtering drops the front and keeps the tail.
proof fn lemma_filter_of_tail(all: Seq<Trade>, cutoff: u64, dropped: int)
    requires
        0 <= dropped <= all.len(),
        forall|i: int| 0 <= i < dropped ==> (#[trigger] all[i]).timestamp_ms < cutoff,
        forall|i: int| dropped <= i < all.len() ==> (#[trigger] all[i]).timestamp_ms >= cutoff,
    ensures
        all.filter(|t: Trade| t.timestamp_ms >= cutoff) == all.skip(dropped),
    decreases all.len(),
{
    let recent = |t: Trade| t.timestamp_ms >= cutoff;
    if all.len() == 0 {
        reveal(Seq::filter);
        assert(all.skip(dropped) =~= all.filter(recent));
    } else {
        let head = all.drop_last();
        assert(head.push(all.last()) =~= all);
        head.lemma_filter_push(all.last(), recent);
        if dropped < all.len() {
            lemma_filter_of_tail(head, cutoff, dropped);
            assert(all.skip(dropped) =~= head.skip(dropped).push(all.last()));
        } else {
            assert(all[all.len() - 1].timestamp_ms < cutoff);
            lemma_filter_of_tail(head, cutoff, head.len() as int);
            assert(all.skip(dropped) =~= head.skip(head.len() as int));
        }
    }
}

/// A batch that arrives in time order, whichever sides its trades are on: the history is
/// then the one before and the batch, in their order, without what is older than the
/// window of the newest trade.
pub proof fn law_batch_in_time_order(trades: Seq<Trade>, window_ms: u64, batch: Seq<Trade>)
    requires
        batch.len() > 0,
        in_time_order(trades + batch),
    ensures
        with_trades(trades, window_ms, batch) == (trades + batch).filter(
            |t: Trade| t.timestamp_ms >= opening(batch.last().timestamp_ms, window_ms),
        ),
    decreases batch.len(),
{
    let head = batch.drop_last();
    let newest_trade = batch.last();
    let cut = opening(newest_trade.timestamp_ms, window_ms);
    let recent = |t: Trade| t.timestamp_ms >= cut;
    let all = trades + batch;
    assert(all =~= (trades + head).push(newest_trade));
    if head.len() == 0 {
        assert(head =~= Seq::<Trade>::empty());
        assert(with_trades(trades, window_ms, head) == trades);
        assert(trades + head =~= trades);
        law_window_is_kept(trades, newest_trade, window_ms);
    } else {
        let earlier = trades + head;
        assert(in_time_order(earlier)) by {
            assert forall|i: int, j: int| 0 <= i < j < earlier.len() implies earlier[i].timestamp_ms
                <= earlier[j].timestamp_ms by {
                assert(all[i] == earlier[i] && all[j] == earlier[j]);
            }
        }
        law_batch_in_time_order(trades, window_ms, head);
        let first_cut = opening(head.last().timestamp_ms, window_ms);
        let kept = with_trades(trades, window_ms, head);
        assert(head.last() == all[all.len() - 2]);
        assert(all[all.len() - 1] == newest_trade);
        assert(all[all.len() - 2].timestamp_ms <= all[all.len() - 1].timestamp_ms);
        assert(first_cut <= cut);
        lemma_filter_twice(earlier, first_cut, cut);
        assert(in_time_order(kept.push(newest_trade))) by {
            lemma_filter_in_order(all, first_cut);
            earlier.lemma_filter_push(newest_trade, |t: Trade| t.timestamp_ms >= first_cut);
            assert(newest_trade.timestamp_ms >= first_cut);
        }
        law_window_is_kept(kept, newest_trade, window_ms);
        kept.lemma_filter_push(newest_trade, recent);
        earlier.lemma_filter_push(newest_trade, recent);
    }
}

/// A trade leaves the history from the front only, and the last of a batch never: the
/// history ends with as much of the one before and the batch as it holds.
pub proof fn law_batch_leaves_a_tail(trades: Seq<Trade>, window_ms: u64, batch: Seq<Trade>) -> (
dropped: int)
    ensures
        0 <= dropped <= trades.len() + batch.len(),
        with_trades(trades, window_ms, batch) == (trades + batch).skip(dropped),
        batch.len() > 0 ==> with_trades(trades, window_ms, batch).len() > 0 && with_trades(
            trades,
            window_ms,
            batch,
        ).last() == batch.last(),
    decreases batch.len(),
{
    if batch.len() == 0 {
        assert((trades + batch).skip(0) =~= trades);
        0
    } else {
        let head = batch.drop_last();
        let trade = batch.last();
        let before = law_batch_leaves_a_tail(trades, window_ms, head);
        let kept = with_trades(trades, window_ms, head).push(trade);
        let more = law_dropping_leaves_a_tail(
            kept,
            window_start(trade.timestamp_ms, window_ms),
        );
        if more == kept.len() {
            assert(kept[kept.len() - 1].timestamp_ms < window_start(trade.timestamp_ms, window_ms));
        }
        assert(kept.skip(more) =~= (trades + batch).skip(before + more));
        before + more
    }
}

/// Filtering by a later moment makes an earlier filter idle.
proof fn lemma_filter_twice(trades: Seq<Trade>, first: int, second: int)
    requires
        first <= second,
    ensures
        trades.filter(|t: Trade| t.timestamp_ms >= first).filter(
            |t: Trade| t.timestamp_ms >= second,
        ) == trades.filter(|t: Trade| t.timestamp_ms >= second),
    decreases trades.len(),
{
    let a = |t: Trade| t.timestamp_ms >= first;
    let b = |t: Trade| t.timestamp_ms >= second;
    if trades.len() == 0 {
        reveal(Seq::filter);
        assert(trades.filter(a) =~= trades);
    } else {
        let head = trades.drop_last();
        let last = trades.last();
        assert(head.push(last) =~= trades);
        lemma_filter_twice(head, first, second);
        head.lemma_filter_push(last, a);
        head.lemma_filter_push(last, b);
        head.filter(a).lemma_filter_push(last, b);
    }
}

/// The trades from a moment on.
spec fn since(trades: Seq<Trade>, cut: int) -> Seq<Trade> {
    trades.filter(|t: Trade| t.timestamp_ms >= cut)
}

/// A filter keeps the order in time.
proof fn lemma_filter_in_order(trades: Seq<Trade>, cut: int)
    requires
        in_time_order(trades),
    ensures
        in_time_order(since(trades, cut)),
        forall|i: int|
            0 <= i < since(trades, cut).len() ==> trades.contains(#[trigger] since(trades, cut)[i]),
    decreases trades.len(),
{
    let keep = |t: Trade| t.timestamp_ms >= cut;
    let kept = since(trades, cut);
    if trades.len() == 0 {
        reveal(Seq::filter);
        assert(kept =~= trades);
    } else {
        let head = trades.drop_last();
        let n = trades.len() - 1;
        assert(head.push(trades.last()) =~= trades);
        assert(in_time_order(head)) by {
            assert forall|i: int, j: int| 0 <= i < j < head.len() implies head[i].timestamp_ms
                <= head[j].timestamp_ms by {
                assert(trades[i] == head[i] && trades[j] == head[j]);
            }
        }
        lemma_filter_in_order(head, cut);
        head.lemma_filter_push(trades.last(), keep);
        let known = since(head, cut);
        assert forall|i: int| 0 <= i < kept.len() implies trades.contains(#[trigger] kept[i]) by {
            if i < known.len() {
                assert(head.contains(known[i]));
                let m = choose|m: int| 0 <= m < head.len() && head[m] == known[i];
                assert(trades[m] == kept[i]);
            } else {
                assert(trades[n] == kept[i]);
            }
        }
        assert forall|i: int, j: int| 0 <= i < j < kept.len() implies kept[i].timestamp_ms
            <= kept[j].timestamp_ms by {
            if j < known.len() {
                assert(known[i].timestamp_ms <= known[j].timestamp_ms);
            } else {
                assert(head.contains(known[i]));
                let m = choose|m: int| 0 <= m < head.len() && head[m] == known[i];
                assert(trades[m].timestamp_ms <= trades[n].timestamp_ms);
            }
        }
    }
}

/// The rate of trades is the number of those within the window, over the window in
/// seconds.
pub proof fn law_rate_of_trades(trades: Seq<Trade>, now_ms: u64, window_ms: u64)
    requires
        trades.len() > 0,
        window_ms > 0,
    ensures
        trades_per_second(trades, now_ms, window_ms) == Binary64::integer(
            trades.filter(|t: Trade| t.timestamp_ms + window_ms >= now_ms).len(),
        ).quotient(Binary64::integer(window_ms as nat).quotient(Binary64::integer(1000))),
{
    let cutoff = window_start(now_ms, window_ms);
    assert((|t: Trade| t.timestamp_ms + window_ms >= now_ms) =~= (|t: Trade|
        t.timestamp_ms >= cutoff));
}

/// No trades, or no window, give a rate of zero.
pub proof fn law_rate_of_nothing(trades: Seq<Trade>, now_ms: u64, window_ms: u64)
    ensures
        trades_per_second(Seq::empty(), now_ms, window_ms).bits == 0,
        trades_per_second(trades, now_ms, 0).bits == 0,
{
}

/// A message gives a trade exactly when its price and quantity are numbers: those, at the
/// time of the trade, and bought by the taker when the buyer was not the maker.
pub proof fn law_trade_of_a_message(message: WsAggTrade)
    ensures
        message.trade() is Some <==> parsed(message.price@) is Some && parsed(
            message.quantity@,
        ) is Some,
        message.trade() matches Some(trade) ==> {
            &&& parsed(message.price@) == Some(trade.price)
            &&& parsed(message.quantity@) == Some(trade.quantity)
            &&& trade.timestamp_ms == message.trade_time
            &&& trade.is_buy <==> !message.is_buyer_maker
        },
{
}

/// A batch of trades is the same as two batches in turn.
pub proof fn law_batches_compose(
    trades: Seq<Trade>,
    window_ms: u64,
    first: Seq<Trade>,
    second: Seq<Trade>,
)
    ensures
        with_trades(with_trades(trades, window_ms, first), window_ms, second) == with_trades(
            trades,
            window_ms,
            first + second,
        ),
    decreases second.len(),
{
    if second.len() == 0 {
        assert(first + second =~= first);
    } else {
        law_batches_compose(trades, window_ms, first, second.drop_last());
        assert((first + second).drop_last() =~= first + second.drop_last());
        assert((first + second).last() == second.last());
    }
}

/// A history never holds more slices than its limit, and drops none before that; what it
/// holds are the latest.
pub proof fn law_history_is_bounded<T>(slices: Seq<T>, slice: T, max: nat)
    ensures
        newest(slices.push(slice), max).len() == if slices.len() + 1 < max {
            slices.len() + 1
        } else {
            max
        },
        forall|i: int|
            0 <= i < newest(slices.push(slice), max).len() ==> #[trigger] newest(
                slices.push(slice),
                max,
            )[i] == slices.push(slice)[slices.len() + 1 - newest(slices.push(slice), max).len()
                + i],
        newest(slices.push(slice), max).len() <= max,
        slices.len() < max ==> newest(slices.push(slice), max) == slices.push(slice),
        max > 0 ==> newest(slices.push(slice), max).last() == slice,
{
}

/// Adding slices leaves the limit, the interval and the time of the last sample alone.
pub proof fn law_settings_stay(before: DepthHistory, after: DepthHistory)
    requires
        after.same_settings(before),
    ensures
        after.max_slices == before.max_slices,
        after.sample_interval_ms == before.sample_interval_ms,
        after.last_sample_ms == before.last_sample_ms,
{
}

/// A sample is due as soon as the interval has gone by since the last one, and not
/// before; a clock that went back makes none due, unless the interval is zero.
pub proof fn law_when_a_sample_is_due(state: SharedState, now_ms: u64)
    ensures
        now_ms >= state.depth_history.last_sample_ms ==> (state.sample_due(now_ms) <==> now_ms
            - state.depth_history.last_sample_ms >= state.depth_history.sample_interval_ms),
        now_ms < state.depth_history.last_sample_ms ==> (state.sample_due(now_ms)
            <==> state.depth_history.sample_interval_ms == 0),
{
}

/// With a clock that does not go back, samples are an interval apart.
pub proof fn law_samples_are_spaced(state: SharedState, now_ms: u64)
    requires
        state.sample_due(now_ms),
        now_ms >= state.depth_history.last_sample_ms,
    ensures
        now_ms - state.depth_history.last_sample_ms >= state.depth_history.sample_interval_ms,
{
    law_when_a_sample_is_due(state, now_ms);
}

/// A slice shows the bids from the lowest price up, then the asks likewise, each with its
/// price and quantity.
pub proof fn law_what_a_slice_shows(slice: DepthSlice, book: OrderBook, now_ms: u64)
    requires
        shows_book(slice, book, now_ms),
    ensures
        slice.timestamp_ms == now_ms,
        slice.bids_len == ascending(book.bids@).len(),
        slice.levels@.len() == ascending(book.bids@).len() + ascending(book.asks@).len(),
        forall|i: int|
            0 <= i < ascending(book.bids@).len() ==> #[trigger] slice.levels@[i] == (
                ascending(book.bids@)[i].price,
                ascending(book.bids@)[i].quantity,
            ),
        forall|i: int|
            0 <= i < ascending(book.asks@).len() ==> slice.levels@[slice.bids_len + i] == (
                (#[trigger] ascending(book.asks@)[i]).price,
                ascending(book.asks@)[i].quantity,
            ),
{
}

/// Trades that are all older than the window give a rate of zero.
pub proof fn law_old_trades_do_not_count(trades: Seq<Trade>, now_ms: u64, window_ms: u64)
    requires
        forall|i: int|
            0 <= i < trades.len() ==> (#[trigger] trades[i]).timestamp_ms + window_ms < now_ms,
    ensures
        trades_per_second(trades, now_ms, window_ms) == Binary64::of(false, 0),
{
    if trades.len() > 0 && window_ms > 0 {
        let cutoff = window_start(now_ms, window_ms);
        lemma_filter_of_tail(trades, cutoff, trades.len() as int);
        assert(count_since(trades, cutoff) == 0);
        lemma_seconds(window_ms);
        let seconds = Binary64::integer(window_ms as nat).quotient(Binary64::integer(1000));
        assert(Binary64::integer(0) == Binary64::of(false, 0)) by {
            lemma_pow2_pos(1074);
            lemma_zero_rounds_to_zero(1);
            assert(0 * pow2(1074) == 0);
        }
        let m = magnitude(seconds.code());
        lemma_magnitude_increases(0, seconds.code());
        lemma_zero_rounds_to_zero(m);
        assert(magnitude(0) * pow2(1074) == 0);
    }
}

/// A window in seconds is a positive finite number.
proof fn lemma_seconds(window_ms: u64)
    requires
        window_ms > 0,
    ensures
        ({
            let seconds = Binary64::integer(window_ms as nat).quotient(Binary64::integer(1000));
            0 < seconds.code() < INFINITY_CODE && !seconds.negative()
        }),
{
    law_counts_are_in_range(window_ms);
    law_counts_are_in_range(1000);
    lemma_power_code(0);
    lemma_power_code(64);
    lemma_power_code(-64);
    let a = magnitude(Binary64::integer(window_ms as nat).code());
    let b = magnitude(Binary64::integer(1000).code());
    let p = pow2(1074);
    let up = pow2(64);
    lemma_pow2_adds(1074, 64);
    lemma_pow2_adds(1010, 64);
    lemma_pow2_pos(1010);
    lemma_pow2_pos(1074);
    lemma_pow2_pos(64);
    let small = pow2(1010);
    assert(b * small <= a * p && a * p <= b * (p * up)) by (nonlinear_arith)
        requires
            p <= a <= p * up,
            p <= b <= p * up,
            small * up == p,
            up > 0,
            small > 0,
    {
        assert(b * small <= (p * up) * small);
        assert((p * up) * small == p * (small * up));
        assert(p * p <= a * p);
        assert(a * p <= (p * up) * p);
        assert((p * up) * p == p * (p * up));
        assert(p * (p * up) <= b * (p * up));
    }
    lemma_between_powers(a * p, b, -64, 64);
    lemma_of_code(round_code(a * p, b));
}

} // verus!
