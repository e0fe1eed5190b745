//! Laws of symbols: their price steps, their tickers and the choice of one.

use crate::binary64::Binary64;
use crate::config::{bin_width, symbol_or_default};
use crate::decimal::{decimal_code, digits_value, parsed, ten_to};
use crate::json::{json_member, json_text};
use crate::laws::decimals::{digits, law_trimming};
use crate::laws::numbers::{law_counts_are_in_range, lemma_power_code};
use crate::picker::{
    any_counts, catalog_entry, catalog_of, counts, is_offered, rest_quotes, stream_quotes,
    symbols_of, ticker_of, with_quotes, LiveTicker, Quote, RestTicker24hr, SymbolCatalogEntry,
    WsMiniTicker,
};
use crate::rounding::{
    code_exponent, code_significand, lemma_code_split, lemma_round_code, nearest,
};
use crate::text::{first_of, is_white_space, lemma_first_of, trim_end, trim_start, trimmed};
use crate::ticks::{
    default_tick, filters_tick, price_decimals, selected_tick, symbol_position,
    tick_and_decimals, ExchangeSymbolInfo, DEFAULT_TICK_BITS, MAX_PRICE_DECIMALS,
};
use vstd::arithmetic::power2::{lemma2_to64, lemma_pow2_adds, lemma_pow2_pos, pow2};
use vstd::prelude::*;
use vstd::utf8::{encode_utf8, is_ascii_chars, is_ascii_chars_encode_utf8};

verus! {

/// A number above zero, or NaN.
pub open spec fn not_at_most_zero(x: Binary64) -> bool {
    !x.at_most(Binary64::of(false, 0))
}

/// A price step is never zero or below, and never calls for more decimals than the limit.
pub proof fn law_step_is_usable(symbols: Seq<ExchangeSymbolInfo>, name: Seq<char>)
    ensures
        not_at_most_zero(selected_tick(symbols, name).0),
        selected_tick(symbols, name).1 <= 8,
{
    if symbols.len() > 0 {
        let position = symbol_position(symbols, name);
        if position < symbols.len() {
            lemma_filters_tick(symbols[position as int].filters@);
        }
        lemma_filters_tick(symbols[0].filters@);
    }
}

proof fn lemma_filters_tick(filters: Seq<serde_json::Value>)
    ensures
        filters_tick(filters) matches Some(found) ==> not_at_most_zero(found.0) && found.1
            <= MAX_PRICE_DECIMALS,
    decreases filters.len(),
{
    if filters.len() > 0 {
        lemma_filters_tick(filters.skip(1));
    }
}

/// The default step is the number nearest to a tenth.
pub proof fn law_default_step_is_a_tenth()
    ensures
        default_tick() == Binary64::of(false, decimal_code(1, -1)),
        default_tick().bits == 0x3fb9_9999_9999_999a,
{
    let code = DEFAULT_TICK_BITS as nat;
    lemma_code_split(code);
    lemma_code_split((code - 1) as nat);
    let p = pow2(1018);
    lemma_pow2_adds(1018, 56);
    lemma_pow2_adds(32, 24);
    lemma2_to64();
    lemma_pow2_pos(1018);
    assert(code_exponent(code) == 1018 && code_exponent((code - 1) as nat) == 1018);
    let t = code_significand(code) as int;
    assert(t == 0x19_9999_9999_999a);
    let n = pow2(1074);
    assert(2 * n < 10 * ((2 * t + 1) * p) && 2 * n > 10 * ((2 * t - 1) * p)) by (nonlinear_arith)
        requires
            n == p * 0x100_0000_0000_0000,
            t == 0x19_9999_9999_999a,
            p > 0,
    ;
    assert(nearest(n, 10, code));
    lemma_round_code(n, 10, code);
    assert(ten_to(1) == 10) by {
        reveal_with_fuel(ten_to, 2);
    }
    assert(1 * n == n);
}

/// No step calls for more decimals than the limit.
pub proof fn law_decimals_are_limited(tick_size: Seq<char>)
    ensures
        price_decimals(tick_size) <= 8,
{
}

/// Nothing but white space.
pub open spec fn blank(s: Seq<char>) -> bool {
    forall|i: int| 0 <= i < s.len() ==> is_white_space(#[trigger] s[i])
}

/// A step with a point in it has as many decimals as bytes stand behind the first point,
/// up to eight: nothing of what is behind it is left out but zeros at the end.
pub proof fn law_decimals_are_what_follows_the_point(whole: Seq<char>, fraction: Seq<char>)
    requires
        forall|i: int| 0 <= i < whole.len() ==> #[trigger] whole[i] != '.',
        whole.len() > 0 ==> !is_white_space(whole[0]),
        fraction.len() > 0 ==> !is_white_space(fraction.last()) && fraction.last() != '0',
    ensures
        price_decimals(whole + seq!['.'] + fraction) == if encode_utf8(fraction).len() < 8 {
            encode_utf8(fraction).len()
        } else {
            8
        },
{
    let step = whole + seq!['.'] + fraction;
    let n = whole.len() as int;
    assert(trimmed(step) =~= step) by {
        assert(step[0] == if n > 0 {
            whole[0]
        } else {
            '.'
        });
        assert(step.last() == if fraction.len() > 0 {
            fraction.last()
        } else {
            '.'
        });
    }
    lemma_first_of(step, '.', '.', n);
    assert(step.skip(n + 1) =~= fraction);
}

/// A step that is written as digits, a point and digits that do not end in zero has as
/// many decimals as there are digits behind the point, and never more than eight.  Scaled
/// by that power of ten it is whole, and no smaller power makes it so.
pub proof fn law_decimals_of_a_plain_step(whole: Seq<char>, fraction: Seq<char>)
    requires
        digits(whole),
        digits(fraction),
        fraction.len() > 0 ==> fraction.last() != '0',
    ensures
        fraction.len() <= 8 ==> price_decimals(whole + seq!['.'] + fraction) == fraction.len(),
        fraction.len() > 8 ==> price_decimals(whole + seq!['.'] + fraction) == 8,
        fraction.len() > 0 ==> digits_value(whole + fraction) % 10 != 0,
{
    assert forall|i: int| 0 <= i < whole.len() implies #[trigger] whole[i] != '.' by {
        assert('0' <= whole[i] <= '9');
    }
    if whole.len() > 0 {
        assert('0' <= whole[0] <= '9');
    }
    assert(is_ascii_chars(fraction)) by {
        assert forall|i: int| 0 <= i < fraction.len() implies (#[trigger] fraction[i] as nat)
            < 128 by {
            assert('0' <= fraction[i] <= '9');
        }
    }
    is_ascii_chars_encode_utf8(fraction);
    if fraction.len() > 0 {
        let last = fraction[fraction.len() - 1];
        assert('0' <= last <= '9');
        let all = whole + fraction;
        assert(all.last() == last);
        assert(digits_value(all) == 10 * digits_value(all.drop_last()) + (last as int - '0' as int));
    }
    law_decimals_are_what_follows_the_point(whole, fraction);
}

/// A step without a point has no decimals.
pub proof fn law_no_point_no_decimals(step: Seq<char>)
    requires
        forall|i: int| 0 <= i < step.len() ==> #[trigger] step[i] != '.',
    ensures
        price_decimals(step) == 0,
{
    let (from, to) = law_trimming(step);
    let number = trimmed(step);
    assert forall|i: int| 0 <= i < number.len() implies #[trigger] number[i] != '.' && number[i]
        != '.' by {
        assert(step[from + i] != '.');
    }
    lemma_first_of(number, '.', '.', number.len() as int);
}

/// A step is a number above zero, or NaN, and comes with its decimals.
pub proof fn law_reading_a_step(raw: Seq<char>)
    ensures
        tick_and_decimals(raw) is Some <==> parsed(trimmed(raw)) is Some && not_at_most_zero(
            parsed(trimmed(raw))->0,
        ),
        tick_and_decimals(raw) matches Some(found) ==> parsed(trimmed(raw)) == Some(found.0)
            && found.1 == price_decimals(raw),
{
    law_decimals_are_limited(raw);
}

/// Whether a filter is one for prices with a step in it.
pub open spec fn holds_step(filter: serde_json::Value) -> bool {
    &&& json_member(filter, "filterType"@) matches Some(kind) && json_text(kind) == Some(
        "PRICE_FILTER"@,
    )
    &&& json_member(filter, "tickSize"@) matches Some(size) && json_text(size) is Some
        && tick_and_decimals(json_text(size)->0) is Some
}

/// The first price filter that holds a step gives it; without one there is none.
pub proof fn law_first_price_filter_decides(filters: Seq<serde_json::Value>, i: int)
    requires
        0 <= i <= filters.len(),
        forall|j: int| 0 <= j < i ==> !holds_step(#[trigger] filters[j]),
        i < filters.len() ==> holds_step(filters[i]),
    ensures
        i == filters.len() ==> filters_tick(filters) is None,
        i < filters.len() ==> filters_tick(filters) == tick_and_decimals(
            json_text(json_member(filters[i], "tickSize"@)->0)->0,
        ),
    decreases filters.len(),
{
    if filters.len() > 0 && i > 0 {
        let rest = filters.skip(1);
        assert(!holds_step(filters[0]));
        assert forall|j: int| 0 <= j < i - 1 implies !holds_step(#[trigger] rest[j]) by {
            assert(!holds_step(filters[j + 1]));
        }
        law_first_price_filter_decides(rest, i - 1);
    }
}

/// The step of a symbol: that of the first one of its name, or of the first one at all
/// when there is none of its name, or a tenth with one decimal.
pub proof fn law_step_of_a_symbol(symbols: Seq<ExchangeSymbolInfo>, name: Seq<char>, i: int)
    requires
        0 <= i <= symbols.len(),
        forall|j: int| 0 <= j < i ==> (#[trigger] symbols[j]).symbol@ != name,
        i < symbols.len() ==> symbols[i].symbol@ == name,
    ensures
        selected_tick(symbols, name) == {
            let found = if symbols.len() == 0 {
                None
            } else if i < symbols.len() {
                filters_tick(symbols[i].filters@)
            } else {
                filters_tick(symbols[0].filters@)
            };
            match found {
                Some(step) => step,
                None => (Binary64 { bits: 0x3fb9_9999_9999_999a }, 1usize),
            }
        },
{
    lemma_symbol_position(symbols, name, i);
}

proof fn lemma_symbol_position(symbols: Seq<ExchangeSymbolInfo>, name: Seq<char>, i: int)
    requires
        0 <= i <= symbols.len(),
        forall|j: int| 0 <= j < i ==> (#[trigger] symbols[j]).symbol@ != name,
        i < symbols.len() ==> symbols[i].symbol@ == name,
    ensures
        symbol_position(symbols, name) == i,
    decreases symbols.len(),
{
    if i > 0 {
        let rest = symbols.skip(1);
        assert(symbols[0].symbol@ != name);
        assert forall|j: int| 0 <= j < i - 1 implies (#[trigger] rest[j]).symbol@ != name by {
            assert(symbols[j + 1].symbol@ != name);
        }
        lemma_symbol_position(rest, name, i - 1);
    }
}

/// White space around a step changes nothing.
pub proof fn law_white_space_around_a_step(left: Seq<char>, step: Seq<char>, right: Seq<char>)
    requires
        blank(left),
        blank(right),
    ensures
        price_decimals(left + step + right) == price_decimals(step),
        tick_and_decimals(left + step + right) == tick_and_decimals(step),
{
    lemma_trim_left(left, step + right);
    assert(left + (step + right) =~= left + step + right);
    lemma_trim_right(step, right);
}

proof fn lemma_trim_left(left: Seq<char>, s: Seq<char>)
    requires
        blank(left),
    ensures
        trim_start(left + s) == trim_start(s),
    decreases left.len(),
{
    if left.len() == 0 {
        assert(left + s =~= s);
    } else {
        let rest = left.skip(1);
        assert(is_white_space(left[0]));
        assert forall|i: int| 0 <= i < rest.len() implies is_white_space(#[trigger] rest[i]) by {
            assert(is_white_space(left[i + 1]));
        }
        lemma_trim_left(rest, s);
        assert((left + s).skip(1) =~= rest + s);
    }
}

proof fn lemma_trim_right(s: Seq<char>, right: Seq<char>)
    requires
        blank(right),
    ensures
        trimmed(s + right) == trimmed(s),
    decreases s.len(),
{
    if s.len() == 0 {
        assert(s + right =~= right + s);
        lemma_trim_left(right, s);
    } else if is_white_space(s[0]) {
        assert((s + right).skip(1) =~= s.skip(1) + right);
        lemma_trim_right(s.skip(1), right);
    } else {
        lemma_trim_end(s, right);
    }
}

proof fn lemma_trim_end(s: Seq<char>, right: Seq<char>)
    requires
        blank(right),
    ensures
        trim_end(s + right) == trim_end(s),
    decreases right.len(),
{
    if right.len() == 0 {
        assert(s + right =~= s);
    } else {
        let rest = right.drop_last();
        assert(is_white_space(right[right.len() - 1]));
        assert forall|i: int| 0 <= i < rest.len() implies is_white_space(#[trigger] rest[i]) by {
            assert(is_white_space(right[i]));
        }
        lemma_trim_end(s, rest);
        assert((s + right).drop_last() =~= s + rest);
    }
}

/// A zero at the end of a step does not change its decimals.  (Behind white space it is
/// not at the end of the step.)
pub proof fn law_zero_at_the_end_of_a_step(step: Seq<char>)
    requires
        step.len() > 0 ==> !is_white_space(step.last()),
    ensures
        price_decimals(step.push('0')) == price_decimals(step),
{
    let number = trimmed(step);
    lemma_trim_push(step);
    let longer = number.push('0');
    assert(trimmed(step.push('0')) == longer);
    lemma_first_of_bound(number);
    let point = first_of(number, '.', '.') as int;
    lemma_first_of_push(number);
    if point < number.len() {
        let fraction = number.skip(point + 1);
        assert(longer.skip(point + 1) =~= fraction.push('0'));
        assert(fraction.push('0').drop_last() =~= fraction);
    }
}

proof fn lemma_trim_push(s: Seq<char>)
    requires
        s.len() > 0 ==> !is_white_space(s.last()),
    ensures
        trimmed(s.push('0')) == trimmed(s).push('0'),
    decreases s.len(),
{
    if s.len() > 0 && is_white_space(s[0]) {
        assert(s.push('0').skip(1) =~= s.skip(1).push('0'));
        if s.len() > 1 {
            assert(s.skip(1).last() == s.last());
        }
        lemma_trim_push(s.skip(1));
    }
}

proof fn lemma_first_of_bound(s: Seq<char>)
    ensures
        first_of(s, '.', '.') <= s.len(),
    decreases s.len(),
{
    if s.len() > 0 {
        lemma_first_of_bound(s.skip(1));
    }
}

proof fn lemma_first_of_push(s: Seq<char>)
    ensures
        first_of(s, '.', '.') < s.len() ==> first_of(s.push('0'), '.', '.') == first_of(
            s,
            '.',
            '.',
        ),
        first_of(s, '.', '.') == s.len() ==> first_of(s.push('0'), '.', '.') == s.len() + 1,
    decreases s.len(),
{
    if s.len() == 0 {
        assert(s.push('0').skip(1) =~= Seq::<char>::empty());
        assert(first_of(Seq::<char>::empty(), '.', '.') == 0);
    } else {
        assert(s.push('0').skip(1) =~= s.skip(1).push('0'));
        lemma_first_of_push(s.skip(1));
    }
}

/// A perpetual contract in USDT that is trading is offered, and nothing else.
pub open spec fn trades_perpetually(info: ExchangeSymbolInfo) -> bool {
    info.quote_asset@ == "USDT"@ && info.contract_type@ == "PERPETUAL"@ && info.status@
        == "TRADING"@
}

/// An entry names the same symbol and assets.
pub open spec fn names(entry: SymbolCatalogEntry, info: ExchangeSymbolInfo) -> bool {
    entry.symbol == info.symbol && entry.base_asset == info.base_asset && entry.quote_asset
        == info.quote_asset
}

/// One more symbol adds its entry to the end of a catalog when it is offered, and nothing
/// otherwise.
pub proof fn law_one_more_symbol(symbols: Seq<ExchangeSymbolInfo>, info: ExchangeSymbolInfo)
    ensures
        catalog_of(Seq::empty()).len() == 0,
        !trades_perpetually(info) ==> catalog_of(symbols.push(info)) == catalog_of(symbols),
        trades_perpetually(info) ==> {
            &&& catalog_of(symbols.push(info)).len() == catalog_of(symbols).len() + 1
            &&& catalog_of(symbols.push(info)).drop_last() == catalog_of(symbols)
            &&& names(catalog_of(symbols.push(info)).last(), info)
        },
{
    let keep = |info: ExchangeSymbolInfo| is_offered(info);
    symbols.lemma_filter_push(info, keep);
    assert(Seq::<ExchangeSymbolInfo>::empty().filter(keep).len() == 0) by {
        reveal(Seq::filter);
    }
    if trades_perpetually(info) {
        assert(catalog_of(symbols.push(info)) =~= catalog_of(symbols).push(catalog_entry(info)));
        assert(catalog_of(symbols).push(catalog_entry(info)).drop_last() =~= catalog_of(symbols));
    }
}

/// The symbols of a catalog are those that its entries name.
pub proof fn law_symbols_of_a_catalog(catalog: Seq<SymbolCatalogEntry>, symbol: Seq<char>)
    ensures
        symbols_of(catalog).contains(symbol) <==> exists|i: int|
            0 <= i < catalog.len() && (#[trigger] catalog[i]).symbol@ == symbol,
{
    let listed = catalog.map_values(|entry: SymbolCatalogEntry| entry.symbol@);
    if symbols_of(catalog).contains(symbol) {
        let i = choose|i: int| 0 <= i < listed.len() && listed[i] == symbol;
        assert(catalog[i].symbol@ == symbol);
    }
    if exists|i: int| 0 <= i < catalog.len() && (#[trigger] catalog[i]).symbol@ == symbol {
        let i = choose|i: int| 0 <= i < catalog.len() && (#[trigger] catalog[i]).symbol@ == symbol;
        assert(listed[i] == symbol);
    }
}

/// A ticker: all three texts are numbers, and the change is the last price less the open
/// one, as a share of that, in per cent; none without an open price above zero.
pub proof fn law_ticker_of_texts(
    last: Seq<char>,
    open: Seq<char>,
    quote_volume: Seq<char>,
    time_ms: u64,
)
    ensures
        ticker_of(last, open, quote_volume, time_ms) is Some <==> parsed(last) is Some && parsed(
            open,
        ) is Some && parsed(quote_volume) is Some,
        ticker_of(last, open, quote_volume, time_ms) matches Some(ticker) ==> {
            &&& parsed(last) == Some(ticker.last_price)
            &&& parsed(open) == Some(ticker.open_24h)
            &&& parsed(quote_volume) == Some(ticker.quote_volume_24h)
            &&& ticker.event_time_ms == time_ms
            &&& Binary64::of(false, 0).below(ticker.open_24h) ==> ticker.change_pct_24h
                == ticker.last_price.difference(ticker.open_24h).quotient(
                ticker.open_24h,
            ).product(Binary64::integer(100))
            &&& !Binary64::of(false, 0).below(ticker.open_24h) ==> ticker.change_pct_24h.bits == 0
        },
{
}

/// Quotes are made of the fields of a ticker, one for one.
pub proof fn law_quotes_of_tickers(rest: Seq<RestTicker24hr>, stream: Seq<WsMiniTicker>)
    ensures
        rest_quotes(rest).len() == rest.len(),
        stream_quotes(stream).len() == stream.len(),
        forall|i: int|
            0 <= i < rest.len() ==> #[trigger] rest_quotes(rest)[i] == (
                rest[i].symbol@,
                ticker_of(
                    rest[i].last_price@,
                    rest[i].open_price@,
                    rest[i].quote_volume@,
                    rest[i].close_time,
                ),
            ),
        forall|i: int|
            0 <= i < stream.len() ==> #[trigger] stream_quotes(stream)[i] == (
                stream[i].symbol@,
                ticker_of(
                    stream[i].close_price@,
                    stream[i].open_price@,
                    stream[i].quote_volume@,
                    stream[i].event_time,
                ),
            ),
{
}

/// One more quote sets the ticker of its symbol, when that is listed and the quote is
/// numeric, and changes nothing otherwise.
pub proof fn law_one_more_quote(
    tickers: Map<Seq<char>, LiveTicker>,
    valid: Set<Seq<char>>,
    quotes: Seq<Quote>,
    symbol: Seq<char>,
    ticker: LiveTicker,
)
    ensures
        with_quotes(tickers, valid, Seq::empty()) == tickers,
        with_quotes(tickers, valid, quotes.push((symbol, None))) == with_quotes(
            tickers,
            valid,
            quotes,
        ),
        with_quotes(tickers, valid, quotes.push((symbol, Some(ticker)))) == if valid.contains(
            symbol,
        ) {
            with_quotes(tickers, valid, quotes).insert(symbol, ticker)
        } else {
            with_quotes(tickers, valid, quotes)
        },
        any_counts(valid, quotes) <==> exists|i: int|
            0 <= i < quotes.len() && valid.contains((#[trigger] quotes[i]).0) && quotes[i].1
                is Some,
{
    assert(quotes.push((symbol, None)).drop_last() =~= quotes);
    assert(quotes.push((symbol, Some(ticker))).drop_last() =~= quotes);
    if exists|i: int|
        0 <= i < quotes.len() && valid.contains((#[trigger] quotes[i]).0) && quotes[i].1 is Some {
        let i = choose|i: int|
            0 <= i < quotes.len() && valid.contains((#[trigger] quotes[i]).0) && quotes[i].1 is Some;
        assert(counts(valid, quotes[i]));
    }
    if any_counts(valid, quotes) {
        let i = choose|i: int| 0 <= i < quotes.len() && counts(valid, #[trigger] quotes[i]);
        assert(valid.contains(quotes[i].0));
    }
}

/// A catalog lists the symbols that are offered, and no others.
pub proof fn law_catalog_lists_what_is_offered(
    symbols: Seq<ExchangeSymbolInfo>,
    entry: SymbolCatalogEntry,
)
    ensures
        catalog_of(symbols).contains(entry) <==> exists|i: int|
            0 <= i < symbols.len() && trades_perpetually(#[trigger] symbols[i]) && names(
                entry,
                symbols[i],
            ),
{
    let keep = |info: ExchangeSymbolInfo| is_offered(info);
    let kept = symbols.filter(keep);
    if catalog_of(symbols).contains(entry) {
        let j = choose|j: int| 0 <= j < catalog_of(symbols).len() && catalog_of(symbols)[j] == entry;
        symbols.lemma_filter_pred(keep, j);
        symbols.lemma_filter_contains_rev(keep, kept[j]);
        let i = choose|i: int| 0 <= i < symbols.len() && symbols[i] == kept[j];
        assert(trades_perpetually(symbols[i]) && names(entry, symbols[i]));
    }
    if exists|i: int|
        0 <= i < symbols.len() && trades_perpetually(#[trigger] symbols[i]) && names(
            entry,
            symbols[i],
        ) {
        let i = choose|i: int|
            0 <= i < symbols.len() && trades_perpetually(#[trigger] symbols[i]) && names(
                entry,
                symbols[i],
            );
        assert(catalog_entry(symbols[i]) == entry);
        symbols.lemma_filter_contains(keep, i);
        let j = choose|j: int| 0 <= j < kept.len() && kept[j] == symbols[i];
        assert(catalog_of(symbols)[j] == entry);
    }
}

/// Tickers are kept only of symbols in the catalog.
pub proof fn law_only_listed_symbols_have_tickers(
    tickers: Map<Seq<char>, LiveTicker>,
    valid: Set<Seq<char>>,
    quotes: Seq<Quote>,
)
    requires
        tickers.dom().subset_of(valid),
    ensures
        with_quotes(tickers, valid, quotes).dom().subset_of(valid),
    decreases quotes.len(),
{
    if quotes.len() > 0 {
        law_only_listed_symbols_have_tickers(tickers, valid, quotes.drop_last());
    }
}

/// The last quote of a symbol that counts is the one that is kept.
pub proof fn law_last_quote_is_kept(
    tickers: Map<Seq<char>, LiveTicker>,
    valid: Set<Seq<char>>,
    quotes: Seq<Quote>,
    i: int,
)
    requires
        0 <= i < quotes.len(),
        counts(valid, quotes[i]),
        forall|j: int|
            i < j < quotes.len() && counts(valid, #[trigger] quotes[j]) ==> quotes[j].0
                != quotes[i].0,
    ensures
        with_quotes(tickers, valid, quotes).contains_key(quotes[i].0),
        with_quotes(tickers, valid, quotes)[quotes[i].0] == quotes[i].1->0,
    decreases quotes.len(),
{
    if i < quotes.len() - 1 {
        let head = quotes.drop_last();
        assert forall|j: int| i < j < head.len() && counts(valid, #[trigger] head[j]) implies head[j].0
            != head[i].0 by {
            assert(counts(valid, quotes[j]));
        }
        law_last_quote_is_kept(tickers, valid, head, i);
        let last = quotes[quotes.len() - 1];
        if counts(valid, last) {
            assert(last.0 != quotes[i].0);
        }
    }
}

/// Quotes of which none counts change no ticker.
pub proof fn law_other_quotes_change_nothing(
    tickers: Map<Seq<char>, LiveTicker>,
    valid: Set<Seq<char>>,
    quotes: Seq<Quote>,
)
    requires
        !any_counts(valid, quotes),
    ensures
        with_quotes(tickers, valid, quotes) == tickers,
    decreases quotes.len(),
{
    if quotes.len() > 0 {
        let head = quotes.drop_last();
        assert(!counts(valid, quotes[quotes.len() - 1]));
        assert(!any_counts(valid, head)) by {
            if any_counts(valid, head) {
                let j = choose|j: int| 0 <= j < head.len() && counts(valid, #[trigger] head[j]);
                assert(counts(valid, quotes[j]));
            }
        }
        law_other_quotes_change_nothing(tickers, valid, head);
    }
}

/// A price bin is never of zero width or less.
pub proof fn law_bins_have_width(line: Seq<char>)
    ensures
        not_at_most_zero(bin_width(line)),
{
    law_counts_are_in_range(1);
    lemma_power_code(0);
    lemma_power_code(64);
}

/// A line that denotes a number above zero, or NaN, is the width of a bin; any other line
/// stands for one.
pub proof fn law_width_of_a_bin(line: Seq<char>)
    ensures
        match parsed(trimmed(line)) {
            Some(width) => not_at_most_zero(width) ==> bin_width(line) == width,
            None => bin_width(line) == Binary64::integer(1),
        },
        parsed(trimmed(line)) matches Some(width) ==> !not_at_most_zero(width) ==> bin_width(line)
            == Binary64::integer(1),
{
}

/// A symbol that was entered is taken as it is, and `btcusdt` stands for none.
pub proof fn law_symbol_or_default(symbol: Seq<char>)
    ensures
        symbol.len() > 0 ==> symbol_or_default(symbol) == symbol,
        symbol_or_default(Seq::empty()) == "btcusdt"@,
{
}

/// Some symbol is always chosen.
pub proof fn law_symbol_is_never_empty(symbol: Seq<char>)
    ensures
        symbol_or_default(symbol).len() > 0,
{
    reveal_strlit("btcusdt");
}

} // verus!
