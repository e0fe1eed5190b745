//! Laws of keeping the book in step.

use crate::book::{snapshot_side, updated_side, OrderBook, RestDepthResponse, WsDepthUpdate};
use crate::clock::signed;
use crate::levels::PriceLevel;
use crate::state::{book_follows, next_epoch};
use crate::sync::{half, latency, latency_fits, offset_fits, stepped, DepthSync, SyncStep};
use vstd::prelude::*;

verus! {

/// A run of the feed: updates that came one after the other, and where each of them
/// left the sequence and the book.  The first `buffered` of them waited for the snapshot.
pub struct FeedRun {
    pub buffered: nat,
    pub updates: Seq<WsDepthUpdate>,
    pub steps: Seq<SyncStep>,
    pub syncs: Seq<DepthSync>,
    pub books: Seq<OrderBook>,
}

impl FeedRun {
    /// Every update was stepped over as it should be.
    pub open spec fn valid(self) -> bool {
        let n = self.updates.len();
        &&& self.steps.len() == n
        &&& self.syncs.len() == n + 1
        &&& self.books.len() == n + 1
        &&& forall|i: int| 0 <= i < n ==> #[trigger] self.valid_at(i)
    }

    pub open spec fn valid_at(self, i: int) -> bool {
        &&& self.steps[i] == if i < self.buffered {
            self.syncs[i].buffered_step(self.updates[i])
        } else {
            self.syncs[i].live_step(self.updates[i])
        }
        &&& stepped(
            self.syncs[i],
            self.books[i],
            self.updates[i],
            self.steps[i],
            self.syncs[i + 1],
            self.books[i + 1],
        )
    }

    /// The run starts from a snapshot.
    pub open spec fn starts_from(self, snapshot: RestDepthResponse) -> bool {
        &&& !self.syncs[0].synced
        &&& self.syncs[0].snapshot_update_id == snapshot.last_update_id
        &&& self.books[0].bids@ == snapshot_side(snapshot.bids@)
        &&& self.books[0].asks@ == snapshot_side(snapshot.asks@)
        &&& self.books[0].last_update_id == snapshot.last_update_id
    }

    /// The same run without its last update.
    pub open spec fn shorter(self) -> FeedRun {
        FeedRun {
            buffered: self.buffered,
            updates: self.updates.drop_last(),
            steps: self.steps.drop_last(),
            syncs: self.syncs.drop_last(),
            books: self.books.drop_last(),
        }
    }

    /// The updates that went into the book.
    pub open spec fn taken(self) -> Seq<WsDepthUpdate>
        decreases self.updates.len(),
    {
        if self.updates.len() == 0 {
            Seq::empty()
        } else if self.steps.last().takes() {
            self.shorter().taken().push(self.updates.last())
        } else {
            self.shorter().taken()
        }
    }
}

/// An update directly follows the one before it.
pub open spec fn linked(updates: Seq<WsDepthUpdate>, i: int) -> bool {
    updates[i].prev_final_update_id == updates[i - 1].final_update_id
}

/// An update ends later than the one before it.
pub open spec fn ends_later(updates: Seq<WsDepthUpdate>, i: int) -> bool {
    updates[i].final_update_id > updates[i - 1].final_update_id
}

/// The first update bridges the snapshot, and each further one follows the one before.
pub open spec fn is_chain(snapshot_id: u64, updates: Seq<WsDepthUpdate>) -> bool {
    &&& updates.len() > 0 ==> updates[0].first_update_id <= snapshot_id
        <= updates[0].final_update_id
    &&& forall|i: int| 0 < i < updates.len() ==> #[trigger] linked(updates, i)
}

/// The bids after a list of updates.
pub open spec fn replayed_bids(
    side: Map<u64, PriceLevel>,
    updates: Seq<WsDepthUpdate>,
) -> Map<u64, PriceLevel>
    decreases updates.len(),
{
    if updates.len() == 0 {
        side
    } else {
        updated_side(replayed_bids(side, updates.drop_last()), updates.last().bids@)
    }
}

/// The asks after a list of updates.
pub open spec fn replayed_asks(
    side: Map<u64, PriceLevel>,
    updates: Seq<WsDepthUpdate>,
) -> Map<u64, PriceLevel>
    decreases updates.len(),
{
    if updates.len() == 0 {
        side
    } else {
        updated_side(replayed_asks(side, updates.drop_last()), updates.last().asks@)
    }
}

/// Whatever the feed sends, the book is the snapshot with a chain of updates applied
/// to it: one that bridges the snapshot, then each directly following the one before.
pub proof fn law_book_is_snapshot_and_chain(run: FeedRun, snapshot: RestDepthResponse)
    requires
        run.valid(),
        run.starts_from(snapshot),
    ensures
        is_chain(snapshot.last_update_id, run.taken()),
        run.books.last().bids@ == replayed_bids(snapshot_side(snapshot.bids@), run.taken()),
        run.books.last().asks@ == replayed_asks(snapshot_side(snapshot.asks@), run.taken()),
        run.syncs.last().synced <==> run.taken().len() > 0,
        run.syncs.last().snapshot_update_id == snapshot.last_update_id,
        run.taken().len() == 0 ==> run.books.last().last_update_id == snapshot.last_update_id,
        run.taken().len() > 0 ==> {
            &&& run.books.last().last_update_id == run.taken().last().final_update_id
            &&& run.syncs.last().last_final_update_id == run.taken().last().final_update_id
        },
    decreases run.updates.len(),
{
    let n = run.updates.len();
    if n > 0 {
        let before = run.shorter();
        assert forall|i: int| 0 <= i < n - 1 implies #[trigger] before.valid_at(i) by {
            assert(run.valid_at(i));
        }
        law_book_is_snapshot_and_chain(before, snapshot);
        assert(run.valid_at(n - 1));
        let taken = run.taken();
        if run.steps.last().takes() {
            assert(taken.drop_last() =~= before.taken());
            assert forall|i: int| 0 < i < taken.len() implies #[trigger] linked(taken, i) by {
                if i < taken.len() - 1 {
                    assert(linked(before.taken(), i));
                }
            }
        }
    }
}

/// An update that can be the first to be taken: it bridges the snapshot and, where it
/// arrives later, does not end at zero.
pub open spec fn opens(run: FeedRun, i: int) -> bool {
    &&& run.syncs[0].bridges(run.updates[i])
    &&& i < run.buffered || run.updates[i].final_update_id > 0
}

/// The first update that is taken is the first that bridges the snapshot; while none
/// does, none is taken.
pub proof fn law_first_bridge_is_taken(run: FeedRun)
    requires
        run.valid(),
        !run.syncs[0].synced,
        run.syncs[0].last_final_update_id == 0,
    ensures
        run.taken().len() > 0 <==> exists|i: int|
            0 <= i < run.updates.len() && #[trigger] opens(run, i),
        forall|i: int|
            0 <= i < run.updates.len() && #[trigger] opens(run, i) && (forall|j: int|
                0 <= j < i ==> !#[trigger] opens(run, j)) ==> run.taken()[0] == run.updates[i],
        run.taken().len() == 0 ==> run.syncs.last() == run.syncs[0],
        run.taken().len() > 0 ==> run.syncs.last().synced,
    decreases run.updates.len(),
{
    let n = run.updates.len();
    if n > 0 {
        let before = run.shorter();
        assert forall|i: int| 0 <= i < n - 1 implies #[trigger] before.valid_at(i) by {
            assert(run.valid_at(i));
        }
        assert forall|i: int| 0 <= i < n - 1 implies opens(before, i) == #[trigger] opens(
            run,
            i,
        ) by {}
        law_first_bridge_is_taken(before);
        assert(run.valid_at(n - 1));
        if before.taken().len() == 0 {
            assert forall|i: int| 0 <= i < n - 1 implies !#[trigger] opens(run, i) by {
                assert(!opens(before, i));
            }
            assert(run.steps[n - 1].takes() == opens(run, n - 1));
        } else {
            let w = choose|i: int| 0 <= i < before.updates.len() && #[trigger] opens(before, i);
            assert(opens(run, w));
            assert(run.taken()[0] == before.taken()[0]);
            assert forall|i: int|
                0 <= i < n && #[trigger] opens(run, i) && (forall|j: int|
                    0 <= j < i ==> !#[trigger] opens(run, j)) implies run.taken()[0]
                == run.updates[i] by {
                if i == n - 1 {
                    assert(!opens(run, w));
                } else {
                    assert(opens(before, i));
                    assert forall|j: int| 0 <= j < i implies !#[trigger] opens(before, j) by {
                        assert(!opens(run, j));
                    }
                }
            }
        }
    }
}

/// A feed without gaps is taken whole: from an update that bridges the snapshot on,
/// each directly following the one before and ending later.
pub proof fn law_chain_is_taken_whole(run: FeedRun)
    requires
        run.valid(),
        !run.syncs[0].synced,
        run.syncs[0].last_final_update_id == 0,
        is_chain(run.syncs[0].snapshot_update_id, run.updates),
        run.updates.len() > 0 ==> run.updates[0].final_update_id > 0,
        forall|i: int| 0 < i < run.updates.len() ==> #[trigger] ends_later(run.updates, i),
    ensures
        run.taken() == run.updates,
        forall|i: int|
            0 <= i < run.steps.len() ==> #[trigger] run.steps[i] == if i == 0 {
                SyncStep::Bridged
            } else {
                SyncStep::Applied
            },
        run.updates.len() > 0 ==> {
            &&& run.syncs.last().synced
            &&& run.syncs.last().last_final_update_id == run.updates.last().final_update_id
            &&& run.updates.last().final_update_id >= run.syncs[0].snapshot_update_id
        },
        run.syncs.last().snapshot_update_id == run.syncs[0].snapshot_update_id,
    decreases run.updates.len(),
{
    let n = run.updates.len();
    if n > 0 {
        let before = run.shorter();
        assert forall|i: int| 0 <= i < n - 1 implies #[trigger] before.valid_at(i) by {
            assert(run.valid_at(i));
        }
        assert forall|i: int| 0 < i < before.updates.len() implies #[trigger] ends_later(
            before.updates,
            i,
        ) && linked(before.updates, i) by {
            assert(ends_later(run.updates, i));
            assert(linked(run.updates, i));
        }
        assert forall|i: int| 0 < i < before.updates.len() implies #[trigger] linked(
            before.updates,
            i,
        ) by {
            assert(ends_later(before.updates, i));
        }
        law_chain_is_taken_whole(before);
        assert(run.valid_at(n - 1));
        if n > 1 {
            assert(ends_later(run.updates, n - 1));
            assert(linked(run.updates, n - 1));
        }
        assert(run.steps[n - 1] == if n == 1 {
            SyncStep::Bridged
        } else {
            SyncStep::Applied
        });
        assert forall|i: int| 0 <= i < run.steps.len() implies #[trigger] run.steps[i] == if i
            == 0 {
            SyncStep::Bridged
        } else {
            SyncStep::Applied
        } by {
            if i < n - 1 {
                assert(run.steps[i] == before.steps[i]);
            }
        }
        assert(run.taken() =~= run.updates);
    } else {
        assert(run.taken() =~= run.updates);
    }
}

/// Once live, the sequence never goes back, and every update that is taken moves it on.
pub proof fn law_live_feed_moves_on(sync: DepthSync, update: WsDepthUpdate)
    ensures
        sync.after(sync.live_step(update), update).last_final_update_id
            >= sync.last_final_update_id,
        sync.live_step(update).takes() ==> sync.after(
            sync.live_step(update),
            update,
        ).last_final_update_id > sync.last_final_update_id,
        sync.synced ==> sync.after(sync.live_step(update), update).synced,
{
}

/// A later update that does not follow is a gap, and only that is one.
pub proof fn law_a_gap_is_a_missing_update(sync: DepthSync, update: WsDepthUpdate)
    ensures
        sync.live_step(update) == SyncStep::Gap <==> sync.synced && update.final_update_id
            > sync.last_final_update_id && update.prev_final_update_id
            != sync.last_final_update_id,
{
}

/// What becomes of an update once the buffered ones are through: it is stale when it ends
/// no later than the last one taken; until one is taken it has to hold the snapshot's id
/// between its own; from then on it is taken when it names the last one taken as the one
/// before it, and is a gap otherwise.
pub proof fn law_steps_of_the_live_feed(sync: DepthSync, update: WsDepthUpdate)
    ensures
        sync.live_step(update) == SyncStep::Stale <==> update.final_update_id
            <= sync.last_final_update_id,
        sync.live_step(update) == SyncStep::Bridged <==> !sync.synced && update.final_update_id
            > sync.last_final_update_id && update.first_update_id <= sync.snapshot_update_id
            && sync.snapshot_update_id <= update.final_update_id,
        sync.live_step(update) == SyncStep::Waiting <==> !sync.synced && update.final_update_id
            > sync.last_final_update_id && (update.first_update_id > sync.snapshot_update_id
            || sync.snapshot_update_id > update.final_update_id),
        sync.live_step(update) == SyncStep::Applied <==> sync.synced && update.final_update_id
            > sync.last_final_update_id && update.prev_final_update_id
            == sync.last_final_update_id,
        sync.live_step(update) == SyncStep::Gap <==> sync.synced && update.final_update_id
            > sync.last_final_update_id && update.prev_final_update_id
            != sync.last_final_update_id,
{
}

/// What becomes of an update that waited for the snapshot: it is stale when it ends before
/// the snapshot; else as in the live feed, but that one which does not follow is passed over.
pub proof fn law_steps_of_buffered_updates(sync: DepthSync, update: WsDepthUpdate)
    ensures
        sync.buffered_step(update) == SyncStep::Stale <==> update.final_update_id
            < sync.snapshot_update_id,
        sync.buffered_step(update) == SyncStep::Bridged <==> !sync.synced && update.first_update_id
            <= sync.snapshot_update_id && sync.snapshot_update_id <= update.final_update_id,
        sync.buffered_step(update) == SyncStep::Waiting <==> !sync.synced && update.first_update_id
            > sync.snapshot_update_id && sync.snapshot_update_id <= update.final_update_id,
        sync.buffered_step(update) == SyncStep::Applied <==> sync.synced && update.final_update_id
            >= sync.snapshot_update_id && update.prev_final_update_id == sync.last_final_update_id,
        sync.buffered_step(update) == SyncStep::Ignored <==> sync.synced && update.final_update_id
            >= sync.snapshot_update_id && update.prev_final_update_id != sync.last_final_update_id,
{
}

/// A step that takes an update moves the place in the sequence to its end and brings both
/// sides of the book up to it; any other leaves both as they are.
pub proof fn law_what_a_step_does(
    sync: DepthSync,
    book: OrderBook,
    update: WsDepthUpdate,
    step: SyncStep,
    next_sync: DepthSync,
    next_book: OrderBook,
)
    requires
        stepped(sync, book, update, step, next_sync, next_book),
    ensures
        next_sync.snapshot_update_id == sync.snapshot_update_id,
        next_sync.clock_offset == sync.clock_offset,
        step == SyncStep::Bridged || step == SyncStep::Applied ==> {
            &&& next_sync.synced
            &&& next_sync.last_final_update_id == update.final_update_id
            &&& next_book.bids@ == updated_side(book.bids@, update.bids@)
            &&& next_book.asks@ == updated_side(book.asks@, update.asks@)
            &&& next_book.last_update_id == update.final_update_id
            &&& next_book.last_event_time == update.event_time
            &&& next_book.clock_offset == book.clock_offset
            &&& book.wf() ==> next_book.wf()
        },
        step != SyncStep::Bridged && step != SyncStep::Applied ==> next_sync == sync && next_book
            == book,
{
}

/// An update is applied to the bids by its bids and to the asks by its asks.
pub proof fn law_book_after_an_update(before: OrderBook, update: WsDepthUpdate, after: OrderBook)
    requires
        book_follows(before, update, after),
    ensures
        after.bids@ == updated_side(before.bids@, update.bids@),
        after.asks@ == updated_side(before.asks@, update.asks@),
        after.last_update_id == update.final_update_id,
        after.last_event_time == update.event_time,
        after.clock_offset == before.clock_offset,
{
}

/// A book is in step when it ends where the sequence has got to.
pub proof fn law_being_in_step(sync: DepthSync, book: OrderBook)
    ensures
        sync.in_step_with(book) <==> !sync.synced || book.last_update_id
            == sync.last_final_update_id,
{
}

/// Half of a number is cut off towards zero.
pub proof fn law_half(x: int)
    ensures
        x >= 0 ==> 0 <= x - 2 * half(x) <= 1,
        x < 0 ==> 0 <= 2 * half(x) - x <= 1,
{
}

/// The latency is how much later than the event it is by the server's clock, and zero when
/// it is not later; without a comparison of the clocks it is -1.
pub proof fn law_latency(now_ms: i64, event_time: u64, offset: i64)
    ensures
        latency(now_ms, event_time, None) == -1,
        latency(now_ms, event_time, Some(offset)) >= 0,
        now_ms - offset >= signed(event_time) ==> latency(now_ms, event_time, Some(offset))
            + signed(event_time) == now_ms - offset,
        now_ms - offset <= signed(event_time) ==> latency(now_ms, event_time, Some(offset)) == 0,
{
}

/// Offset and latency are asked for wherever 64 bits hold them and what they are made of.
pub proof fn law_ranges(
    before: i64,
    after: i64,
    server_time: u64,
    now_ms: i64,
    event_time: u64,
    offset: i64,
)
    ensures
        i64::MIN <= before + after <= i64::MAX && i64::MIN <= half(before + after) - signed(
            server_time,
        ) <= i64::MAX ==> offset_fits(before, after, server_time),
        i64::MIN <= now_ms - signed(event_time) <= i64::MAX && i64::MIN <= now_ms - signed(
            event_time,
        ) - offset <= i64::MAX ==> latency_fits(now_ms, event_time, Some(offset)),
        latency_fits(now_ms, event_time, None),
{
}

/// Calibration recovers the latency: where the local clock is `ahead` of the server's
/// and the time request takes as long there as back, an event is found as old as it is.
pub proof fn law_calibration_recovers_latency(
    server_time: u64,
    ahead: int,
    one_way: nat,
    event_time: u64,
    age: nat,
    local_before: i64,
    local_after: i64,
    offset: i64,
    now_ms: i64,
)
    requires
        local_before == signed(server_time) + ahead - one_way,
        local_after == signed(server_time) + ahead + one_way,
        offset_fits(local_before, local_after, server_time),
        offset == half(local_before + local_after) - signed(server_time),
        now_ms == signed(event_time) + ahead + age,
        latency_fits(now_ms, event_time, Some(offset)),
    ensures
        offset == ahead,
        latency(now_ms, event_time, Some(offset)) == age,
{
}

/// An epoch that moves on is a different one.
pub proof fn law_epochs_differ(epoch: u64)
    ensures
        next_epoch(epoch) != epoch,
{
}

} // verus!
