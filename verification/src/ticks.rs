//! The price step of a symbol and how many decimals it calls for.

use crate::binary64::Binary64;
use crate::decimal::{parse, parsed};
use crate::json::{member_text, read_member_text};
use crate::text::{
    char_vec, find_first, first_of, trim, trim_end_zeros, trim_range, trim_zeros_range, trimmed,
};
use vstd::prelude::*;

verus! {

/// The decimals of a price when its step is unknown.
pub const DEFAULT_PRICE_DECIMALS: usize = 1;

/// The most decimals that a price is shown with.
pub const MAX_PRICE_DECIMALS: usize = 8;

/// The encoding of 0.1, the price step when the exchange gives none.
pub const DEFAULT_TICK_BITS: u64 = 0x3fb9_9999_9999_999a;

/// What the exchange says of its symbols.
#[derive(Debug)]
pub struct ExchangeInfoResponse {
    pub symbols: Vec<ExchangeSymbolInfo>,
}

/// What the exchange says of one symbol.
#[derive(Clone, Debug)]
pub struct ExchangeSymbolInfo {
    pub symbol: String,
    pub filters: Vec<serde_json::Value>,
    pub base_asset: String,
    pub quote_asset: String,
    pub contract_type: String,
    pub status: String,
}

/// The default price step, 0.1.
pub open spec fn default_tick() -> Binary64 {
    Binary64 { bits: DEFAULT_TICK_BITS }
}

/// The bytes that follow the point, less the zeros at the end, up to the limit.
pub open spec fn price_decimals(tick_size: Seq<char>) -> nat {
    let number = trimmed(tick_size);
    let point = first_of(number, '.', '.');
    if point == number.len() {
        0
    } else {
        let places = vstd::utf8::encode_utf8(
            trim_end_zeros(number.skip((point + 1) as int)),
        ).len();
        if places < MAX_PRICE_DECIMALS {
            places
        } else {
            MAX_PRICE_DECIMALS as nat
        }
    }
}

/// The step and its decimals; a step that is not a number, or not above zero, is none.
pub open spec fn tick_and_decimals(tick_size: Seq<char>) -> Option<(Binary64, usize)> {
    match parsed(trimmed(tick_size)) {
        Some(tick) => if tick.at_most(Binary64::of(false, 0)) {
            None
        } else {
            Some((tick, price_decimals(tick_size) as usize))
        },
        None => None,
    }
}

/// The decimals that a price step calls for.
pub fn derive_price_decimals(tick_size_raw: &str) -> (decimals: usize)
    ensures
        decimals == price_decimals(tick_size_raw@),
        decimals <= MAX_PRICE_DECIMALS,
{
    let chars = char_vec(tick_size_raw);
    let (from, to) = trim_range(&chars);
    let point = find_first(&chars, from, to, '.', '.');
    if point == to {
        return 0;
    }
    let end = trim_zeros_range(&chars, point + 1, to);
    proof {
        let number = trimmed(tick_size_raw@);
        assert(number.skip(point - from + 1) =~= chars@.subrange(point + 1, to as int));
    }
    let places = tick_size_raw.substring_char(point + 1, end).as_bytes().len();
    if places < MAX_PRICE_DECIMALS {
        places
    } else {
        MAX_PRICE_DECIMALS
    }
}

/// Reads a price step and the decimals that it calls for.
pub fn parse_tick_size_and_decimals(tick_size_raw: &str) -> (r: Option<(Binary64, usize)>)
    ensures
        r == tick_and_decimals(tick_size_raw@),
{
    match parse(trim(tick_size_raw)) {
        Some(tick) => {
            if tick.is_at_most(Binary64::zero()) {
                None
            } else {
                Some((tick, derive_price_decimals(tick_size_raw)))
            }
        },
        None => None,
    }
}

/// The step in a filter, given the type of the filter and its tick size.
pub open spec fn price_filter_tick(
    filter_type: Option<Seq<char>>,
    tick_size: Option<Seq<char>>,
) -> Option<(Binary64, usize)> {
    if filter_type == Some("PRICE_FILTER"@) {
        match tick_size {
            Some(raw) => tick_and_decimals(raw),
            None => None,
        }
    } else {
        None
    }
}

pub open spec fn text_view(text: Option<String>) -> Option<Seq<char>> {
    match text {
        Some(s) => Some(s@),
        None => None,
    }
}

/// Reads the step in a filter, given the type of the filter and its tick size.
pub fn read_price_filter(filter_type: &Option<String>, tick_size: &Option<String>) -> (r: Option<
    (Binary64, usize),
>)
    ensures
        r == price_filter_tick(text_view(*filter_type), text_view(*tick_size)),
{
    let wanted = "PRICE_FILTER".to_owned();
    let is_price_filter = match filter_type {
        Some(name) => *name == wanted,
        None => false,
    };
    if !is_price_filter {
        return None;
    }
    match tick_size {
        Some(raw) => parse_tick_size_and_decimals(raw.as_str()),
        None => None,
    }
}

/// The step in the first filter that holds one.
pub open spec fn filters_tick(filters: Seq<serde_json::Value>) -> Option<(Binary64, usize)>
    decreases filters.len(),
{
    if filters.len() == 0 {
        None
    } else {
        match price_filter_tick(
            member_text(filters[0], "filterType"@),
            member_text(filters[0], "tickSize"@),
        ) {
            Some(found) => Some(found),
            None => filters_tick(filters.skip(1)),
        }
    }
}

/// The position of the first symbol of that name, or the number of symbols.
pub open spec fn symbol_position(symbols: Seq<ExchangeSymbolInfo>, name: Seq<char>) -> nat
    decreases symbols.len(),
{
    if symbols.len() == 0 || symbols[0].symbol@ == name {
        0
    } else {
        1 + symbol_position(symbols.skip(1), name)
    }
}

/// The step of the named symbol, or of the first one when that name is not listed,
/// or the default when there is none.
pub open spec fn selected_tick(symbols: Seq<ExchangeSymbolInfo>, name: Seq<char>) -> (
    Binary64,
    usize,
) {
    let position = symbol_position(symbols, name);
    let found = if symbols.len() == 0 {
        None
    } else if position < symbols.len() {
        filters_tick(symbols[position as int].filters@)
    } else {
        filters_tick(symbols[0].filters@)
    };
    match found {
        Some(found) => found,
        None => (default_tick(), DEFAULT_PRICE_DECIMALS),
    }
}

/// Finds the step in the first filter that holds one.
fn find_tick(filters: &Vec<serde_json::Value>) -> (r: Option<(Binary64, usize)>)
    ensures
        r == filters_tick(filters@),
{
    let mut i: usize = 0;
    assert(filters@.skip(0) =~= filters@);
    while i < filters.len()
        invariant
            i <= filters@.len(),
            filters_tick(filters@) == filters_tick(filters@.skip(i as int)),
        decreases filters.len() - i,
    {
        let filter_type = read_member_text(&filters[i], "filterType");
        let tick_size = read_member_text(&filters[i], "tickSize");
        let found = read_price_filter(&filter_type, &tick_size);
        assert(filters@.skip(i as int)[0] == filters@[i as int]);
        assert(filters@.skip(i as int).skip(1) =~= filters@.skip(i + 1));
        if found.is_some() {
            return found;
        }
        i = i + 1;
    }
    None
}

/// The default price step with its decimals.
pub fn default_tick_and_decimals() -> (r: (Binary64, usize))
    ensures
        r == (default_tick(), DEFAULT_PRICE_DECIMALS),
{
    (Binary64::from_bits(DEFAULT_TICK_BITS), DEFAULT_PRICE_DECIMALS)
}

/// Selects the price step of a symbol from what the exchange says.
pub fn select_tick_size(info: &ExchangeInfoResponse, symbol_upper: &str) -> (r: (Binary64, usize))
    ensures
        r == selected_tick(info.symbols@, symbol_upper@),
{
    let symbols = &info.symbols;
    if symbols.len() == 0 {
        return default_tick_and_decimals();
    }
    let wanted = symbol_upper.to_owned();
    let mut i: usize = 0;
    assert(symbols@.skip(0) =~= symbols@);
    while i < symbols.len() && !(symbols[i].symbol == wanted)
        invariant
            i <= symbols@.len(),
            wanted@ == symbol_upper@,
            symbol_position(symbols@, wanted@) == i + symbol_position(
                symbols@.skip(i as int),
                wanted@,
            ),
        decreases symbols.len() - i,
    {
        assert(symbols@.skip(i as int).skip(1) =~= symbols@.skip(i + 1));
        i = i + 1;
    }
    assert(i < symbols@.len() ==> symbols@.skip(i as int)[0] == symbols@[i as int]);
    let chosen: usize = if i < symbols.len() {
        i
    } else {
        0
    };
    match find_tick(&symbols[chosen].filters) {
        Some(found) => found,
        None => default_tick_and_decimals(),
    }
}

} // verus!
