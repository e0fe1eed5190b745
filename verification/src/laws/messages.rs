//! Laws of the messages that come in, of what is shown of them, and of the calls that the
//! measures get.

use crate::binary64::Binary64;
use crate::book::WsDepthUpdate;
use crate::clock::{signed, since_epoch, unix_ms, whole_millis};
use crate::feed::{action_after, feed_status, kind_of, routed, FeedAction, FeedEvent, StreamKind};
use crate::json::{json_member, json_text, member_text};
use crate::laws::decimals::law_occurrence;
use crate::micro::{trade_calls, MicroCall, MicroMetrics};
use crate::state::{depth_call, next_epoch, SharedState};
use crate::sync::{live_status, step_calls, SyncStep};
use crate::text::{occurs_in, uppercase};
use crate::ticks::text_view;
use crate::trades::Trade;
use std::time::SystemTime;
use vstd::prelude::*;

verus! {

/// A stream is one of depth when `@depth` is part of its name, else one of trades when
/// `@aggTrade` is, else neither.
pub proof fn law_kind_of_a_stream(left: Seq<char>, right: Seq<char>, name: Seq<char>)
    ensures
        kind_of(left + "@depth"@ + right) == Some(StreamKind::Depth),
        kind_of(left + "@aggTrade"@ + right) is Some,
        kind_of(name) == Some(StreamKind::Depth) ==> exists|a: Seq<char>, b: Seq<char>|
            name == #[trigger] (a + "@depth"@ + b),
        kind_of(name) == Some(StreamKind::AggTrade) ==> exists|a: Seq<char>, b: Seq<char>|
            name == #[trigger] (a + "@aggTrade"@ + b),
        kind_of(name) == Some(StreamKind::AggTrade) ==> !occurs_in(name, "@depth"@),
{
    law_occurrence(left, "@depth"@, right, name);
    law_occurrence(left, "@aggTrade"@, right, name);
}

/// A message is routed when it has a stream of a known kind and a payload, which is handed
/// on as it is.
pub proof fn law_routing(stream: Option<Seq<char>>, data: Option<serde_json::Value>)
    ensures
        routed(stream, data) is Some <==> stream is Some && data is Some && kind_of(stream->0)
            is Some,
        routed(stream, data) matches Some(r) ==> Some(r.0) == kind_of(stream->0) && Some(r.1)
            == data,
{
}

/// The text of a member is the text of the value under its key.
pub proof fn law_text_of_a_member(value: serde_json::Value, key: Seq<char>, text: String)
    ensures
        json_member(value, key) is None ==> member_text(value, key) is None,
        json_member(value, key) matches Some(member) ==> member_text(value, key) == json_text(
            member,
        ),
        text_view(Some(text)) == Some(text@),
        text_view(None) is None,
{
}

/// The status lines of a feed.
pub proof fn law_status_lines(text: String)
    ensures
        feed_status(FeedEvent::Connecting(text)) == "Connecting to "@ + uppercase(text@) + "..."@,
        feed_status(FeedEvent::ConnectFailed(text)) == "WebSocket error: "@ + text@,
        feed_status(FeedEvent::Connected) == "Connected. Fetching snapshot..."@,
        feed_status(FeedEvent::SnapshotUnreadable(text)) == "Snapshot parse error: "@ + text@,
        feed_status(FeedEvent::SnapshotUnavailable(text)) == "Snapshot fetch error: "@ + text@,
        forall|offset: i64| #[trigger] live_status(Some(offset)) == "Live"@,
        live_status(None) == "Live (latency N/A)"@,
{
}

/// A failure ends the feed, whatever it says, and nothing else does.
pub proof fn law_failures_end_the_feed(event: FeedEvent)
    ensures
        action_after(event) == FeedAction::Stop <==> event is ConnectFailed
            || event is SnapshotUnreadable || event is SnapshotUnavailable,
        event is Connecting ==> action_after(event) == FeedAction::GoOn,
        event is Connected ==> action_after(event) == FeedAction::GoOnAfterMillis(300),
{
}

/// Unix time is the whole milliseconds since the epoch, modulo `2^64`; before it there is
/// none.
pub proof fn law_unix_time(reading: SystemTime)
    ensures
        unix_ms(reading) is Some <==> since_epoch(reading) is Some,
        unix_ms(reading) matches Some(ms) ==> ms == whole_millis(since_epoch(reading)->0)
            % 0x1_0000_0000_0000_0000,
{
}

/// Read as a two's complement number, a count keeps its value modulo `2^64`.
pub proof fn law_twos_complement(count: u64)
    ensures
        -0x8000_0000_0000_0000 <= signed(count) < 0x8000_0000_0000_0000,
        signed(count) == count || signed(count) == count - 0x1_0000_0000_0000_0000,
{
}

/// Epochs count up by one, modulo `2^64`.
pub proof fn law_epochs_count_up(epoch: u64)
    ensures
        next_epoch(epoch) == (epoch + 1) % 0x1_0000_0000_0000_0000,
{
}

/// An update that is taken is told to the measures with its time, the epoch that it leads
/// to and the price step; one that bridges the snapshot is followed by a reset; of others
/// nothing is told.
pub proof fn law_calls_of_a_step(step: SyncStep, state: SharedState, update: WsDepthUpdate)
    ensures
        ({
            let told = MicroCall::DepthEpochAdvance {
                event_time: update.event_time,
                depth_epoch: ((state.depth_epoch + 1) % 0x1_0000_0000_0000_0000) as u64,
                tick_size: state.tick_size,
            };
            &&& depth_call(state, update) == told
            &&& step == SyncStep::Bridged ==> step_calls(step, state, update) == seq![
                told,
                MicroCall::ResetFillKill,
            ]
            &&& step == SyncStep::Applied ==> step_calls(step, state, update) == seq![told]
            &&& step != SyncStep::Bridged && step != SyncStep::Applied ==> step_calls(
                step,
                state,
                update,
            ).len() == 0
        }),
{
}

/// Every trade of a batch is told, in turn.
pub proof fn law_calls_of_a_batch(trades: Seq<Trade>, depth_epoch: u64, tick_size: Binary64)
    ensures
        trade_calls(trades, depth_epoch, tick_size).len() == trades.len(),
        forall|i: int|
            0 <= i < trades.len() ==> #[trigger] trade_calls(trades, depth_epoch, tick_size)[i] == (
            MicroCall::Trade { trade: trades[i], depth_epoch, tick_size }),
{
}

/// At a pass the measures are told the time twice: to flush, then to sample.
pub proof fn law_calls_of_a_pass(state: SharedState, now_ms: u64)
    ensures
        state.pass_calls(now_ms) == seq![
            MicroCall::FlushFillKillIfNeeded {
                now_ms,
                depth_epoch: state.depth_epoch,
                tick_size: state.tick_size,
            },
            MicroCall::SampleCumulative { now_ms },
        ],
{
}

/// Calls come behind those that wait, and move no epoch.
pub proof fn law_calls_wait_in_order(
    before: MicroMetrics,
    after: MicroMetrics,
    calls: Seq<MicroCall>,
)
    requires
        after.called(before, calls),
    ensures
        after.calls@ == before.calls@ + calls,
        after.fill_kill_epoch == before.fill_kill_epoch,
        after.cumulative_epoch == before.cumulative_epoch,
{
}

} // verus!
