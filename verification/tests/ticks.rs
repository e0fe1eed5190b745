use cli_ob::binary64::Binary64;
use cli_ob::ticks::{
    default_tick_and_decimals, derive_price_decimals, parse_tick_size_and_decimals,
    read_price_filter, select_tick_size, ExchangeInfoResponse, ExchangeSymbolInfo,
    DEFAULT_PRICE_DECIMALS,
};

fn val(x: Binary64) -> f64 {
    f64::from_bits(x.to_bits())
}

fn symbol(name: &str, filters: &[&str]) -> ExchangeSymbolInfo {
    ExchangeSymbolInfo {
        symbol: name.to_string(),
        filters: filters.iter().map(|text| serde_json::from_str(text).unwrap()).collect(),
        base_asset: String::new(),
        quote_asset: String::new(),
        contract_type: String::new(),
        status: String::new(),
    }
}

fn selected(symbols: Vec<ExchangeSymbolInfo>, name: &str) -> (f64, usize) {
    let (tick, decimals) = select_tick_size(&ExchangeInfoResponse { symbols }, name);
    (val(tick), decimals)
}

#[test]
fn derive_decimals_from_tick_size() {
    assert_eq!(derive_price_decimals("0.1"), 1);
    assert_eq!(derive_price_decimals("0.01"), 2);
    assert_eq!(derive_price_decimals("0.01000000"), 2);
    assert_eq!(derive_price_decimals("1.00000000"), 0);
}

#[test]
fn integer_tick_size_has_zero_decimals() {
    assert_eq!(derive_price_decimals("1"), 0);
    assert_eq!(derive_price_decimals("10.00000000"), 0);
}

#[test]
fn invalid_tick_size_uses_fallback_precision() {
    let decimals = parse_tick_size_and_decimals("invalid")
        .map(|(_, decimals)| decimals)
        .unwrap_or(DEFAULT_PRICE_DECIMALS);
    assert_eq!(decimals, DEFAULT_PRICE_DECIMALS);
}

#[test]
fn decimals_are_limited_and_trimmed() {
    assert_eq!(derive_price_decimals("  0.0010 \n"), 3);
    assert_eq!(derive_price_decimals("0.123456789"), 8);
    assert_eq!(derive_price_decimals("0.000000000000"), 0);
    assert_eq!(derive_price_decimals("a.b.c"), 3);
    assert_eq!(derive_price_decimals("1.\u{e9}x"), 3);
    assert_eq!(derive_price_decimals(""), 0);
    assert_eq!(derive_price_decimals("."), 0);
}

#[test]
fn a_tick_size_is_above_zero() {
    let read = |s: &str| parse_tick_size_and_decimals(s).map(|(t, d)| (val(t), d));
    assert_eq!(read(" 0.0100 "), Some((0.01, 2)));
    assert_eq!(read("0"), None);
    assert_eq!(read("0.000"), None);
    assert_eq!(read("-0.1"), None);
    assert_eq!(read("0.1x"), None);
    assert_eq!(read("1e-3"), Some((0.001, 0)));
    assert!(parse_tick_size_and_decimals("nan").unwrap().0.is_not_a_number());
}

#[test]
fn only_a_price_filter_counts() {
    let some = |s: &str| Some(s.to_string());
    let read = |kind, size| read_price_filter(&kind, &size).map(|(t, d)| (val(t), d));
    assert_eq!(read(some("PRICE_FILTER"), some("0.5")), Some((0.5, 1)));
    assert_eq!(read(some("LOT_SIZE"), some("0.5")), None);
    assert_eq!(read(some("PRICE_FILTER"), None), None);
    assert_eq!(read(None, some("0.5")), None);
    assert_eq!(read(some("PRICE_FILTER"), some("zero")), None);
}

#[test]
fn the_default_tick_is_a_tenth() {
    let (tick, decimals) = default_tick_and_decimals();
    assert_eq!(val(tick), 0.1);
    assert_eq!(decimals, 1);
}

#[test]
fn the_named_symbol_is_selected() {
    let filters = |size: &str| {
        format!("{{\"filterType\":\"PRICE_FILTER\",\"tickSize\":\"{size}\"}}")
    };
    let one = filters("0.01");
    let two = filters("0.5");
    let lot = "{\"filterType\":\"LOT_SIZE\",\"tickSize\":\"7\"}";
    let symbols = || vec![symbol("AUSDT", &[lot, &one]), symbol("BUSDT", &["3", &two, &one])];
    assert_eq!(selected(symbols(), "AUSDT"), (0.01, 2));
    assert_eq!(selected(symbols(), "BUSDT"), (0.5, 1));
    assert_eq!(selected(symbols(), "CUSDT"), (0.01, 2));
}

#[test]
fn a_symbol_without_a_step_has_the_default() {
    let number = "{\"filterType\":\"PRICE_FILTER\",\"tickSize\":0.5}";
    assert_eq!(selected(vec![], "AUSDT"), (0.1, 1));
    assert_eq!(selected(vec![symbol("AUSDT", &[])], "AUSDT"), (0.1, 1));
    assert_eq!(selected(vec![symbol("AUSDT", &[number])], "AUSDT"), (0.1, 1));
}

#[test]
fn zeros_at_the_end_and_white_space_change_no_decimals() {
    for step in ["0.1", "1", "12.", "0.0250", "x.y", ""] {
        let decimals = derive_price_decimals(step);
        assert_eq!(derive_price_decimals(&format!("{step}0")), decimals, "{step}");
        assert_eq!(derive_price_decimals(&format!(" \t{step}\n ")), decimals, "{step}");
    }
    assert_eq!(derive_price_decimals("0.5 0"), 2);
}
