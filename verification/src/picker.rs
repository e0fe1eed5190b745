//! The symbol picker: which symbols there are, and how they trade.

use crate::binary64::Binary64;
use crate::decimal::{parse, parsed};
use crate::state::next_epoch;
use crate::ticks::{ExchangeInfoResponse, ExchangeSymbolInfo};
use vstd::hash_map::StringHashMap;
use vstd::hash_set::StringHashSet;
use vstd::prelude::*;

verus! {

/// A mini-ticker of the `!miniTicker@arr` stream.
#[derive(Debug)]
pub struct WsMiniTicker {
    pub event_type: String,
    pub event_time: u64,
    pub symbol: String,
    pub close_price: String,
    pub open_price: String,
    pub high_price: String,
    pub low_price: String,
    pub base_volume: String,
    pub quote_volume: String,
}

/// A day's statistics of one symbol, as the REST endpoint gives them.
#[derive(Debug)]
pub struct RestTicker24hr {
    pub symbol: String,
    pub last_price: String,
    pub open_price: String,
    pub quote_volume: String,
    pub close_time: u64,
}

/// A single symbol entry from the exchange catalog.
#[derive(Clone, Debug)]
pub struct SymbolCatalogEntry {
    pub symbol: String,
    pub base_asset: String,
    pub quote_asset: String,
}

/// Latest ticker snapshot for one symbol.
#[derive(Clone, Copy, Debug)]
pub struct LiveTicker {
    pub last_price: Binary64,
    pub open_24h: Binary64,
    pub change_pct_24h: Binary64,
    pub quote_volume_24h: Binary64,
    pub event_time_ms: u64,
}

impl Default for LiveTicker {
    fn default() -> (ticker: LiveTicker)
        ensures
            ticker.last_price == Binary64::of(false, 0),
            ticker.open_24h == Binary64::of(false, 0),
            ticker.change_pct_24h == Binary64::of(false, 0),
            ticker.quote_volume_24h == Binary64::of(false, 0),
            ticker.event_time_ms == 0,
    {
        let zero = Binary64::zero();
        LiveTicker {
            last_price: zero,
            open_24h: zero,
            change_pct_24h: zero,
            quote_volume_24h: zero,
            event_time_ms: 0,
        }
    }
}

/// Status of the picker data feed.
#[derive(Clone, Debug, PartialEq)]
pub enum PickerStatus {
    Loading,
    Live,
    Stale,
    Reconnecting,
    Error(String),
}

/// Shared state for the symbol picker.
pub struct PickerSharedState {
    pub catalog: Vec<SymbolCatalogEntry>,
    pub live_tickers: StringHashMap<LiveTicker>,
    pub ticker_epoch: u64,
    pub status: PickerStatus,
}

/// A perpetual contract in USDT that is trading.
pub open spec fn is_offered(info: ExchangeSymbolInfo) -> bool {
    &&& info.quote_asset@ == "USDT"@
    &&& info.contract_type@ == "PERPETUAL"@
    &&& info.status@ == "TRADING"@
}

pub open spec fn catalog_entry(info: ExchangeSymbolInfo) -> SymbolCatalogEntry {
    SymbolCatalogEntry {
        symbol: info.symbol,
        base_asset: info.base_asset,
        quote_asset: info.quote_asset,
    }
}

/// The entries of the symbols that are offered, in their order.
pub open spec fn catalog_of(symbols: Seq<ExchangeSymbolInfo>) -> Seq<SymbolCatalogEntry> {
    symbols.filter(|info: ExchangeSymbolInfo| is_offered(info)).map_values(
        |info: ExchangeSymbolInfo| catalog_entry(info),
    )
}

/// Whether a symbol is a perpetual contract in USDT that is trading.
pub fn offered(info: &ExchangeSymbolInfo) -> (b: bool)
    ensures
        b == is_offered(*info),
{
    let usdt = "USDT".to_owned();
    let perpetual = "PERPETUAL".to_owned();
    let trading = "TRADING".to_owned();
    info.quote_asset == usdt && info.contract_type == perpetual && info.status == trading
}

/// Lists the symbols that are offered.
pub fn build_catalog(info: &ExchangeInfoResponse) -> (catalog: Vec<SymbolCatalogEntry>)
    ensures
        catalog@ == catalog_of(info.symbols@),
{
    let symbols = &info.symbols;
    let mut catalog: Vec<SymbolCatalogEntry> = Vec::new();
    let mut i: usize = 0;
    assert(catalog@ =~= catalog_of(symbols@.take(0)));
    while i < symbols.len()
        invariant
            i <= symbols@.len(),
            catalog@ == catalog_of(symbols@.take(i as int)),
        decreases symbols.len() - i,
    {
        if offered(&symbols[i]) {
            catalog.push(
                SymbolCatalogEntry {
                    symbol: symbols[i].symbol.clone(),
                    base_asset: symbols[i].base_asset.clone(),
                    quote_asset: symbols[i].quote_asset.clone(),
                },
            );
        }
        proof {
            let keep = |info: ExchangeSymbolInfo| is_offered(info);
            let head = symbols@.take(i as int);
            let next = symbols@[i as int];
            assert(symbols@.take(i + 1) =~= head.push(next));
            head.lemma_filter_push(next, keep);
            assert(catalog@ =~= catalog_of(symbols@.take(i + 1)));
        }
        i = i + 1;
    }
    assert(symbols@.take(i as int) =~= symbols@);
    catalog
}

/// A set of symbols.
pub type SymbolSet = StringHashSet;

/// The symbols of a catalog.
pub open spec fn symbols_of(catalog: Seq<SymbolCatalogEntry>) -> Set<Seq<char>> {
    catalog.map_values(|entry: SymbolCatalogEntry| entry.symbol@).to_set()
}

/// Collects the symbols of a catalog.
pub fn catalog_symbols(catalog: &Vec<SymbolCatalogEntry>) -> (symbols: SymbolSet)
    ensures
        symbols@ == symbols_of(catalog@),
{
    let mut symbols = StringHashSet::new();
    let mut i: usize = 0;
    assert(symbols@ =~= symbols_of(catalog@.take(0)));
    while i < catalog.len()
        invariant
            i <= catalog@.len(),
            symbols@ == symbols_of(catalog@.take(i as int)),
        decreases catalog.len() - i,
    {
        symbols.insert(catalog[i].symbol.clone());
        proof {
            let f = |entry: SymbolCatalogEntry| entry.symbol@;
            let head = catalog@.take(i as int).map_values(f);
            let all = catalog@.take(i + 1).map_values(f);
            assert(all =~= head.push(catalog@[i as int].symbol@));
            assert(all.to_set() =~= head.to_set().insert(catalog@[i as int].symbol@)) by {
                assert forall|x: Seq<char>| all.contains(x) implies head.contains(x) || x
                    == catalog@[i as int].symbol@ by {
                    let j = choose|j: int| 0 <= j < all.len() && all[j] == x;
                    if j < head.len() {
                        assert(head[j] == x);
                    }
                }
                assert forall|x: Seq<char>| head.contains(x) implies all.contains(x) by {
                    let j = choose|j: int| 0 <= j < head.len() && head[j] == x;
                    assert(all[j] == x);
                }
                assert(all[i as int] == catalog@[i as int].symbol@);
            }
        }
        i = i + 1;
    }
    assert(catalog@.take(i as int) =~= catalog@);
    symbols
}

/// The change since the opening price, in per cent; zero when that is not above zero.
pub open spec fn change_pct(last: Binary64, open: Binary64) -> Binary64 {
    if open.positive() {
        last.difference(open).quotient(open).product(Binary64::integer(100))
    } else {
        Binary64::of(false, 0)
    }
}

/// The ticker that decimal fields denote, if all of them are numbers.
pub open spec fn ticker_of(
    last: Seq<char>,
    open: Seq<char>,
    quote_volume: Seq<char>,
    event_time_ms: u64,
) -> Option<LiveTicker> {
    match (parsed(last), parsed(open), parsed(quote_volume)) {
        (Some(last_price), Some(open_24h), Some(quote_volume_24h)) => Some(
            LiveTicker {
                last_price,
                open_24h,
                change_pct_24h: change_pct(last_price, open_24h),
                quote_volume_24h,
                event_time_ms,
            },
        ),
        _ => None,
    }
}

/// Reads a ticker from decimal fields.
pub fn read_ticker(last: &str, open: &str, quote_volume: &str, event_time_ms: u64) -> (ticker:
    Option<LiveTicker>)
    ensures
        ticker == ticker_of(last@, open@, quote_volume@, event_time_ms),
{
    match (parse(last), parse(open), parse(quote_volume)) {
        (Some(last_price), Some(open_24h), Some(quote_volume_24h)) => {
            let change_pct_24h = if open_24h.is_positive() {
                last_price.minus(open_24h).over(open_24h).times(Binary64::whole(100))
            } else {
                Binary64::zero()
            };
            Some(
                LiveTicker {
                    last_price,
                    open_24h,
                    change_pct_24h,
                    quote_volume_24h,
                    event_time_ms,
                },
            )
        },
        _ => None,
    }
}

/// A symbol and what its ticker denotes.
pub type Quote = (Seq<char>, Option<LiveTicker>);

pub open spec fn rest_quotes(tickers: Seq<RestTicker24hr>) -> Seq<Quote> {
    tickers.map_values(
        |t: RestTicker24hr|
            (t.symbol@, ticker_of(t.last_price@, t.open_price@, t.quote_volume@, t.close_time)),
    )
}

pub open spec fn stream_quotes(tickers: Seq<WsMiniTicker>) -> Seq<Quote> {
    tickers.map_values(
        |t: WsMiniTicker|
            (t.symbol@, ticker_of(t.close_price@, t.open_price@, t.quote_volume@, t.event_time)),
    )
}

/// A quote counts when its symbol is in the catalog and its fields are numbers.
pub open spec fn counts(valid: Set<Seq<char>>, quote: Quote) -> bool {
    valid.contains(quote.0) && quote.1 is Some
}

/// The tickers after quotes, the later ones overriding the earlier.
pub open spec fn with_quotes(
    tickers: Map<Seq<char>, LiveTicker>,
    valid: Set<Seq<char>>,
    quotes: Seq<Quote>,
) -> Map<Seq<char>, LiveTicker>
    decreases quotes.len(),
{
    if quotes.len() == 0 {
        tickers
    } else {
        let before = with_quotes(tickers, valid, quotes.drop_last());
        let last = quotes.last();
        if counts(valid, last) {
            before.insert(last.0, last.1->0)
        } else {
            before
        }
    }
}

pub open spec fn any_counts(valid: Set<Seq<char>>, quotes: Seq<Quote>) -> bool {
    exists|i: int| 0 <= i < quotes.len() && counts(valid, #[trigger] quotes[i])
}

/// What happens to the ticker feed.
#[derive(Clone, Debug)]
pub enum PickerEvent {
    CatalogFailed(String),
    ConnectFailed,
    Connected,
    Disconnected,
}

/// What the ticker feed does next.
#[derive(Clone, Copy, Debug, PartialEq, Eq, Structural)]
pub enum PickerAction {
    Stop,
    ReadMessages,
    RetryAfterSecs(u64),
}

impl PickerSharedState {
    pub fn new() -> (state: PickerSharedState)
        ensures
            state.catalog@ == Seq::<SymbolCatalogEntry>::empty(),
            state.live_tickers@ == Map::<Seq<char>, LiveTicker>::empty(),
            state.ticker_epoch == 0,
            state.status == PickerStatus::Loading,
    {
        PickerSharedState {
            catalog: Vec::new(),
            live_tickers: StringHashMap::new(),
            ticker_epoch: 0,
            status: PickerStatus::Loading,
        }
    }

    /// Takes a quote if it counts.
    fn take_quote(
        &mut self,
        valid_symbols: &SymbolSet,
        symbol: &String,
        ticker: Option<LiveTicker>,
    ) -> (taken: bool)
        ensures
            taken == counts(valid_symbols@, (symbol@, ticker)),
            final(self).live_tickers@ == if taken {
                old(self).live_tickers@.insert(symbol@, ticker->0)
            } else {
                old(self).live_tickers@
            },
            *final(self) == (PickerSharedState {
                live_tickers: final(self).live_tickers,
                ..*old(self)
            }),
    {
        if !valid_symbols.contains(symbol.as_str()) {
            return false;
        }
        match ticker {
            Some(live) => {
                self.live_tickers.insert(symbol.clone(), live);
                true
            },
            None => false,
        }
    }

    /// Takes the statistics of the last day; the epoch moves on when any of them counts.
    pub fn apply_ticker_snapshot(
        &mut self,
        tickers: &Vec<RestTicker24hr>,
        valid_symbols: &SymbolSet,
    )
        ensures
            final(self).live_tickers@ == with_quotes(
                old(self).live_tickers@,
                valid_symbols@,
                rest_quotes(tickers@),
            ),
            *final(self) == (PickerSharedState {
                live_tickers: final(self).live_tickers,
                ticker_epoch: if any_counts(valid_symbols@, rest_quotes(tickers@)) {
                    next_epoch(old(self).ticker_epoch)
                } else {
                    old(self).ticker_epoch
                },
                ..*old(self)
            }),
    {
        let ghost quotes = rest_quotes(tickers@);
        let mut updated = false;
        let mut i: usize = 0;
        assert(quotes.take(0) =~= Seq::<Quote>::empty());
        while i < tickers.len()
            invariant
                i <= tickers@.len(),
                quotes == rest_quotes(tickers@),
                self.live_tickers@ == with_quotes(
                    old(self).live_tickers@,
                    valid_symbols@,
                    quotes.take(i as int),
                ),
                *self == (PickerSharedState { live_tickers: self.live_tickers, ..*old(self) }),
                updated == any_counts(valid_symbols@, quotes.take(i as int)),
            decreases tickers.len() - i,
        {
            let t = &tickers[i];
            let ticker = read_ticker(
                t.last_price.as_str(),
                t.open_price.as_str(),
                t.quote_volume.as_str(),
                t.close_time,
            );
            let taken = self.take_quote(valid_symbols, &t.symbol, ticker);
            proof {
                assert(quotes.take(i + 1).drop_last() =~= quotes.take(i as int));
                assert(quotes.take(i + 1).last() == quotes[i as int]);
                lemma_any_counts(valid_symbols@, quotes, i as int);
            }
            if taken {
                updated = true;
            }
            i = i + 1;
        }
        assert(quotes.take(i as int) =~= quotes);
        if updated {
            self.ticker_epoch = self.ticker_epoch.wrapping_add(1);
        }
    }

    /// Takes a batch of mini-tickers; when any of them counts, the epoch moves on and
    /// the feed is live.
    pub fn apply_mini_tickers(
        &mut self,
        tickers: &Vec<WsMiniTicker>,
        valid_symbols: &SymbolSet,
    )
        ensures
            final(self).live_tickers@ == with_quotes(
                old(self).live_tickers@,
                valid_symbols@,
                stream_quotes(tickers@),
            ),
            *final(self) == if any_counts(valid_symbols@, stream_quotes(tickers@)) {
                PickerSharedState {
                    live_tickers: final(self).live_tickers,
                    ticker_epoch: next_epoch(old(self).ticker_epoch),
                    status: PickerStatus::Live,
                    ..*old(self)
                }
            } else {
                PickerSharedState { live_tickers: final(self).live_tickers, ..*old(self) }
            },
    {
        let ghost quotes = stream_quotes(tickers@);
        let mut changed = false;
        let mut i: usize = 0;
        assert(quotes.take(0) =~= Seq::<Quote>::empty());
        while i < tickers.len()
            invariant
                i <= tickers@.len(),
                quotes == stream_quotes(tickers@),
                self.live_tickers@ == with_quotes(
                    old(self).live_tickers@,
                    valid_symbols@,
                    quotes.take(i as int),
                ),
                *self == (PickerSharedState { live_tickers: self.live_tickers, ..*old(self) }),
                changed == any_counts(valid_symbols@, quotes.take(i as int)),
            decreases tickers.len() - i,
        {
            let t = &tickers[i];
            let ticker = read_ticker(
                t.close_price.as_str(),
                t.open_price.as_str(),
                t.quote_volume.as_str(),
                t.event_time,
            );
            let taken = self.take_quote(valid_symbols, &t.symbol, ticker);
            proof {
                assert(quotes.take(i + 1).drop_last() =~= quotes.take(i as int));
                assert(quotes.take(i + 1).last() == quotes[i as int]);
                lemma_any_counts(valid_symbols@, quotes, i as int);
            }
            if taken {
                changed = true;
            }
            i = i + 1;
        }
        assert(quotes.take(i as int) =~= quotes);
        if changed {
            self.ticker_epoch = self.ticker_epoch.wrapping_add(1);
            self.status = PickerStatus::Live;
        }
    }

    /// Takes over a catalog.
    pub fn set_catalog(&mut self, info: &ExchangeInfoResponse)
        ensures
            final(self).catalog@ == catalog_of(info.symbols@),
            *final(self) == (PickerSharedState { catalog: final(self).catalog, ..*old(self) }),
    {
        self.catalog = build_catalog(info);
    }

    /// Shows an event in the status and says what to do next.
    pub fn on_event(&mut self, event: &PickerEvent) -> (action: PickerAction)
        ensures
            *final(self) == (PickerSharedState { status: final(self).status, ..*old(self) }),
            match event {
                PickerEvent::CatalogFailed(error) => {
                    &&& final(self).status matches PickerStatus::Error(message)
                    &&& message@ == "Catalog fetch failed: "@ + error@
                    &&& action == PickerAction::Stop
                },
                PickerEvent::ConnectFailed => {
                    &&& final(self).status == PickerStatus::Reconnecting
                    &&& action == PickerAction::RetryAfterSecs(3)
                },
                PickerEvent::Connected => {
                    &&& final(self).status == PickerStatus::Live
                    &&& action == PickerAction::ReadMessages
                },
                PickerEvent::Disconnected => {
                    &&& final(self).status == PickerStatus::Stale
                    &&& action == PickerAction::RetryAfterSecs(3)
                },
            },
    {
        match event {
            PickerEvent::CatalogFailed(error) => {
                let mut message = "Catalog fetch failed: ".to_owned();
                message.append(error.as_str());
                self.status = PickerStatus::Error(message);
                PickerAction::Stop
            },
            PickerEvent::ConnectFailed => {
                self.status = PickerStatus::Reconnecting;
                PickerAction::RetryAfterSecs(3)
            },
            PickerEvent::Connected => {
                self.status = PickerStatus::Live;
                PickerAction::ReadMessages
            },
            PickerEvent::Disconnected => {
                self.status = PickerStatus::Stale;
                PickerAction::RetryAfterSecs(3)
            },
        }
    }
}

proof fn lemma_any_counts(valid: Set<Seq<char>>, quotes: Seq<Quote>, i: int)
    requires
        0 <= i < quotes.len(),
    ensures
        any_counts(valid, quotes.take(i + 1)) == (any_counts(valid, quotes.take(i)) || counts(
            valid,
            quotes[i],
        )),
{
    let head = quotes.take(i);
    let all = quotes.take(i + 1);
    assert(all[i] == quotes[i]);
    if any_counts(valid, all) {
        let j = choose|j: int| 0 <= j < all.len() && counts(valid, #[trigger] all[j]);
        if j < i {
            assert(head[j] == all[j]);
        }
    }
    if any_counts(valid, head) {
        let j = choose|j: int| 0 <= j < head.len() && counts(valid, #[trigger] head[j]);
        assert(all[j] == head[j]);
    }
}

} // verus!
