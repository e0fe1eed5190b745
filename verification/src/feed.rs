//! The messages and addresses of the exchange's feeds.

use crate::json::{
    json_document, json_member, member_text, read_document, read_member, read_member_text,
};
use crate::state::SharedState;
use crate::sync::SyncStep;
use crate::text::{contains, occurs_in, to_uppercase, uppercase};
use vstd::prelude::*;

verus! {

/// What a stream carries.
#[derive(Clone, Copy, Debug, PartialEq, Eq, Structural)]
pub enum StreamKind {
    Depth,
    AggTrade,
}

/// The kind of a stream, by its name.
pub open spec fn kind_of(stream: Seq<char>) -> Option<StreamKind> {
    if occurs_in(stream, "@depth"@) {
        Some(StreamKind::Depth)
    } else if occurs_in(stream, "@aggTrade"@) {
        Some(StreamKind::AggTrade)
    } else {
        None
    }
}

/// Tells the kind of a stream by its name.
pub fn stream_kind(stream: &str) -> (kind: Option<StreamKind>)
    ensures
        kind == kind_of(stream@),
{
    if contains(stream, "@depth") {
        Some(StreamKind::Depth)
    } else if contains(stream, "@aggTrade") {
        Some(StreamKind::AggTrade)
    } else {
        None
    }
}

/// The kind and payload of a combined-stream message, given the name of its stream
/// and its payload.
pub open spec fn routed(
    stream: Option<Seq<char>>,
    data: Option<serde_json::Value>,
) -> Option<(StreamKind, serde_json::Value)> {
    match (stream, data) {
        (Some(name), Some(payload)) => match kind_of(name) {
            Some(kind) => Some((kind, payload)),
            None => None,
        },
        _ => None,
    }
}

/// Routes a message by the name of its stream.
pub fn route(stream: Option<String>, data: Option<serde_json::Value>) -> (r: Option<
    (StreamKind, serde_json::Value),
>)
    ensures
        r == routed(
            match stream {
                Some(s) => Some(s@),
                None => None,
            },
            data,
        ),
{
    match (stream, data) {
        (Some(name), Some(payload)) => match stream_kind(name.as_str()) {
            Some(kind) => Some((kind, payload)),
            None => None,
        },
        _ => None,
    }
}

/// Reads a combined-stream message: its kind and its payload.
pub fn route_message(text: &str) -> (r: Option<(StreamKind, serde_json::Value)>)
    ensures
        r == match json_document(text@) {
            Some(document) => routed(
                member_text(document, "stream"@),
                json_member(document, "data"@),
            ),
            None => None,
        },
{
    match read_document(text) {
        Some(document) => {
            let stream = read_member_text(&document, "stream");
            let data = read_member(&document, "data");
            route(stream, data)
        },
        None => None,
    }
}

/// Reads the payload of a ticker message.
pub fn ticker_payload(text: &str) -> (data: Option<serde_json::Value>)
    ensures
        data == match json_document(text@) {
            Some(document) => json_member(document, "data"@),
            None => None,
        },
{
    match read_document(text) {
        Some(document) => read_member(&document, "data"),
        None => None,
    }
}

/// The symbol as the REST endpoints want it.
pub fn symbol_for_rest(symbol: &str) -> (s: String)
    ensures
        s@ == uppercase(symbol@),
{
    to_uppercase(symbol)
}

/// The address of the depth and trade streams of a symbol.
pub fn stream_url(symbol: &str) -> (url: String)
    ensures
        url@ == "wss://fstream.binance.com/stream?streams="@ + symbol@ + "@depth@100ms/"@ + symbol@
            + "@aggTrade"@,
{
    let mut url = "wss://fstream.binance.com/stream?streams=".to_owned();
    url.append(symbol);
    url.append("@depth@100ms/");
    url.append(symbol);
    url.append("@aggTrade");
    url
}

/// The address of the ticker stream of all symbols.
pub fn ticker_stream_url() -> (url: String)
    ensures
        url@ == "wss://fstream.binance.com/stream?streams=!miniTicker@arr"@,
{
    "wss://fstream.binance.com/stream?streams=!miniTicker@arr".to_owned()
}

/// The address of the depth snapshot of a symbol.
pub fn snapshot_url(symbol_upper: &str) -> (url: String)
    ensures
        url@ == "https://fapi.binance.com/fapi/v1/depth?symbol="@ + symbol_upper@ + "&limit=1000"@,
{
    let mut url = "https://fapi.binance.com/fapi/v1/depth?symbol=".to_owned();
    url.append(symbol_upper);
    url.append("&limit=1000");
    url
}

/// The address of what the exchange says of a symbol.
pub fn exchange_info_url(symbol_upper: &str) -> (url: String)
    ensures
        url@ == "https://fapi.binance.com/fapi/v1/exchangeInfo?symbol="@ + symbol_upper@,
{
    let mut url = "https://fapi.binance.com/fapi/v1/exchangeInfo?symbol=".to_owned();
    url.append(symbol_upper);
    url
}

/// The address of the exchange's clock.
pub fn server_time_url() -> (url: String)
    ensures
        url@ == "https://fapi.binance.com/fapi/v1/time"@,
{
    "https://fapi.binance.com/fapi/v1/time".to_owned()
}

/// The address of what the exchange says of all symbols.
pub fn catalog_url() -> (url: String)
    ensures
        url@ == "https://fapi.binance.com/fapi/v1/exchangeInfo"@,
{
    "https://fapi.binance.com/fapi/v1/exchangeInfo".to_owned()
}

/// The address of the tickers of the last day.
pub fn day_tickers_url() -> (url: String)
    ensures
        url@ == "https://fapi.binance.com/fapi/v1/ticker/24hr"@,
{
    "https://fapi.binance.com/fapi/v1/ticker/24hr".to_owned()
}

/// What happens to a feed before it is in step.
#[derive(Clone, Debug)]
pub enum FeedEvent {
    /// A connection for this symbol is being made.
    Connecting(String),
    ConnectFailed(String),
    Connected,
    SnapshotUnreadable(String),
    SnapshotUnavailable(String),
}

/// What the feed does next.
#[derive(Clone, Copy, Debug, PartialEq, Eq, Structural)]
pub enum FeedAction {
    GoOn,
    GoOnAfterMillis(u64),
    Stop,
    /// Tells the other tasks of the feed to end, and ends after a pause.
    RaiseFlagAndStopAfterSecs(u64),
}

/// What the feed does after an event: a failure ends it, and once connected it gives
/// messages time to arrive before it fetches the snapshot.
pub open spec fn action_after(event: FeedEvent) -> FeedAction {
    match event {
        FeedEvent::Connecting(_) => FeedAction::GoOn,
        FeedEvent::Connected => FeedAction::GoOnAfterMillis(300),
        FeedEvent::ConnectFailed(_) => FeedAction::Stop,
        FeedEvent::SnapshotUnreadable(_) => FeedAction::Stop,
        FeedEvent::SnapshotUnavailable(_) => FeedAction::Stop,
    }
}

impl FeedEvent {
    /// What the feed does after this event.
    pub fn action(&self) -> (action: FeedAction)
        ensures
            action == action_after(*self),
    {
        match self {
            FeedEvent::Connecting(_) => FeedAction::GoOn,
            FeedEvent::Connected => FeedAction::GoOnAfterMillis(300),
            FeedEvent::ConnectFailed(_) => FeedAction::Stop,
            FeedEvent::SnapshotUnreadable(_) => FeedAction::Stop,
            FeedEvent::SnapshotUnavailable(_) => FeedAction::Stop,
        }
    }
}

impl SyncStep {
    /// What the feed does after this step: a gap ends it and everything with it.
    pub fn action(self) -> (action: FeedAction)
        ensures
            action == if self == SyncStep::Gap {
                FeedAction::RaiseFlagAndStopAfterSecs(1)
            } else {
                FeedAction::GoOn
            },
    {
        match self {
            SyncStep::Gap => FeedAction::RaiseFlagAndStopAfterSecs(1),
            _ => FeedAction::GoOn,
        }
    }
}

/// What the feed does at the top of a pass: it ends when it was told to, else it makes
/// the pass and then pauses.
pub fn pass_action(flag_raised: bool) -> (action: FeedAction)
    ensures
        action == if flag_raised {
            FeedAction::Stop
        } else {
            FeedAction::GoOnAfterMillis(5)
        },
{
    if flag_raised {
        FeedAction::Stop
    } else {
        FeedAction::GoOnAfterMillis(5)
    }
}

/// The status line after an event.
pub open spec fn feed_status(event: FeedEvent) -> Seq<char> {
    match event {
        FeedEvent::Connecting(symbol) => "Connecting to "@ + uppercase(symbol@) + "..."@,
        FeedEvent::ConnectFailed(error) => "WebSocket error: "@ + error@,
        FeedEvent::Connected => "Connected. Fetching snapshot..."@,
        FeedEvent::SnapshotUnreadable(error) => "Snapshot parse error: "@ + error@,
        FeedEvent::SnapshotUnavailable(error) => "Snapshot fetch error: "@ + error@,
    }
}

impl SharedState {
    /// Shows an event in the status line and says what to do next.
    pub fn note(&mut self, event: &FeedEvent) -> (action: FeedAction)
        ensures
            action == action_after(*event),
            final(self).status_msg@ == feed_status(*event),
            *final(self) == (SharedState { status_msg: final(self).status_msg, ..*old(self) }),
    {
        self.status_msg = match event {
            FeedEvent::Connecting(symbol) => {
                let mut line = "Connecting to ".to_owned();
                line.append(to_uppercase(symbol.as_str()).as_str());
                line.append("...");
                line
            },
            FeedEvent::ConnectFailed(error) => {
                let mut line = "WebSocket error: ".to_owned();
                line.append(error.as_str());
                line
            },
            FeedEvent::Connected => "Connected. Fetching snapshot...".to_owned(),
            FeedEvent::SnapshotUnreadable(error) => {
                let mut line = "Snapshot parse error: ".to_owned();
                line.append(error.as_str());
                line
            },
            FeedEvent::SnapshotUnavailable(error) => {
                let mut line = "Snapshot fetch error: ".to_owned();
                line.append(error.as_str());
                line
            },
        };
        event.action()
    }
}

} // verus!
