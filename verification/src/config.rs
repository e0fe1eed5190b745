//! What the user enters at the start.

use crate::binary64::Binary64;
use crate::decimal::{parse, parsed};
use crate::text::{lowercase, to_lowercase, trim, trimmed};
use vstd::prelude::*;

verus! {

/// The symbol, or `btcusdt` when none was entered.
pub open spec fn symbol_or_default(symbol: Seq<char>) -> Seq<char> {
    if symbol.len() == 0 {
        "btcusdt"@
    } else {
        symbol
    }
}

/// Puts `btcusdt` in place of an empty symbol.
pub fn default_symbol(symbol: String) -> (r: String)
    ensures
        r@ == symbol_or_default(symbol@),
{
    if symbol.as_str().is_empty() {
        "btcusdt".to_owned()
    } else {
        symbol
    }
}

/// Reads the trading symbol from a line of input.
pub fn read_symbol(line: &str) -> (symbol: String)
    ensures
        symbol@ == symbol_or_default(lowercase(trimmed(line@))),
{
    default_symbol(to_lowercase(trim(line)))
}

/// The width of a price bin that a line denotes; one when it denotes none, or none
/// above zero.
pub open spec fn bin_width(line: Seq<char>) -> Binary64 {
    match parsed(trimmed(line)) {
        Some(width) => if width.at_most(Binary64::of(false, 0)) {
            Binary64::integer(1)
        } else {
            width
        },
        None => Binary64::integer(1),
    }
}

/// Reads the width of a price bin from a line of input.
pub fn read_bin_width(line: &str) -> (width: Binary64)
    ensures
        width == bin_width(line@),
{
    match parse(trim(line)) {
        Some(width) => {
            if width.is_at_most(Binary64::zero()) {
                Binary64::whole(1)
            } else {
                width
            }
        },
        None => Binary64::whole(1),
    }
}

} // verus!
