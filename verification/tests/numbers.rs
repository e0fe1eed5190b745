use cli_ob::binary64::Binary64;
use cli_ob::decimal::parse;
use ordered_float::OrderedFloat;

fn num(x: f64) -> Binary64 {
    Binary64::from_bits(x.to_bits())
}

fn val(x: Binary64) -> f64 {
    f64::from_bits(x.to_bits())
}

fn agree(ours: Binary64, theirs: f64) -> bool {
    if theirs.is_nan() {
        ours.is_not_a_number()
    } else {
        ours.to_bits() == theirs.to_bits()
    }
}

struct Mixer {
    state: u64,
}

impl Mixer {
    fn next(&mut self) -> u64 {
        self.state ^= self.state << 13;
        self.state ^= self.state >> 7;
        self.state ^= self.state << 17;
        self.state
    }

    /// Numbers over the whole range, with a share of close exponents.
    fn number(&mut self) -> f64 {
        let bits = self.next();
        match self.next() % 4 {
            0 => f64::from_bits(bits),
            1 => f64::from_bits((bits & 0x800f_ffff_ffff_ffff) | ((1020 + bits % 8) << 52)),
            2 => f64::from_bits(bits & 0x801f_ffff_ffff_ffff),
            _ => (bits % 1_000_000) as f64 / 100.0,
        }
    }
}

fn specials() -> Vec<f64> {
    vec![
        0.0,
        -0.0,
        1.0,
        -1.0,
        0.1,
        0.3,
        3.0,
        1000.0,
        f64::MIN_POSITIVE,
        -f64::MIN_POSITIVE,
        f64::from_bits(1),
        f64::from_bits(0x800f_ffff_ffff_ffff),
        f64::from_bits(0x000f_ffff_ffff_ffff),
        f64::MAX,
        f64::MIN,
        f64::EPSILON,
        f64::INFINITY,
        f64::NEG_INFINITY,
        f64::NAN,
        9007199254740992.0,
        9007199254740993.0,
        1.0 - f64::EPSILON / 2.0,
        1.0 + f64::EPSILON,
    ]
}

fn check_pair(a: f64, b: f64) {
    let (x, y) = (num(a), num(b));
    assert!(agree(x.plus(y), a + b), "{a:e} + {b:e}");
    assert!(agree(x.minus(y), a - b), "{a:e} - {b:e}");
    assert!(agree(x.times(y), a * b), "{a:e} * {b:e}");
    assert!(agree(x.over(y), a / b), "{a:e} / {b:e}");
    assert_eq!(x.is_below(y), a < b);
    assert_eq!(x.is_at_most(y), a <= b);
    assert_eq!(x.is_same(y), a == b);
    assert_eq!(x == y, a == b);
    assert_eq!(
        x.total_order_key().cmp(&y.total_order_key()),
        OrderedFloat(a).cmp(&OrderedFloat(b)),
        "{a:e} ? {b:e}"
    );
}

#[test]
fn arithmetic_of_special_numbers() {
    for a in specials() {
        for b in specials() {
            check_pair(a, b);
        }
    }
}

#[test]
fn arithmetic_of_many_numbers() {
    let mut mixer = Mixer { state: 0x9e37_79b9_7f4a_7c15 };
    for _ in 0..100_000 {
        let a = mixer.number();
        let b = mixer.number();
        check_pair(a, b);
    }
}

#[test]
fn signs_and_classes() {
    for a in specials() {
        let x = num(a);
        assert_eq!(x.is_not_a_number(), a.is_nan());
        assert_eq!(x.is_positive(), a > 0.0);
        assert!(agree(x.absolute(), a.abs()));
        assert!(agree(x.negated(), -a));
    }
    assert_eq!(Binary64::zero().to_bits(), 0);
}

#[test]
fn whole_numbers() {
    let mut mixer = Mixer { state: 0x2545_f491_4f6c_dd1d };
    for n in [0, 1, 2, 37, 1000, 10_000, (1 << 53) - 1, (1 << 53) + 1, (1 << 54) + 2, u64::MAX] {
        assert!(agree(Binary64::whole(n), n as f64), "{n}");
    }
    for _ in 0..10_000 {
        let shift = mixer.next() % 64;
        let n = mixer.next() >> shift;
        assert!(agree(Binary64::whole(n), n as f64), "{n}");
    }
}

#[test]
fn a_sum_is_not_associative() {
    let (a, b, c) = (num(0.1), num(0.2), num(0.3));
    assert_eq!(val(a.plus(b).plus(c)), 0.6000000000000001);
    assert_eq!(val(a.plus(b.plus(c))), 0.6);
}

#[test]
fn numbers_in_range_are_ordered_by_value() {
    let mut values = specials();
    values.retain(|x| x.is_finite());
    values.sort_by(|a, b| a.partial_cmp(b).unwrap());
    for pair in values.windows(2) {
        assert!(num(pair[0]).is_at_most(num(pair[1])));
        assert!(num(pair[0]).total_order_key() <= num(pair[1]).total_order_key());
    }
}

fn check_text(text: &str) {
    match (parse(text), text.parse::<f64>()) {
        (Some(ours), Ok(theirs)) => assert!(
            agree(ours, theirs),
            "{text}: {:x} but {:x}",
            ours.to_bits(),
            theirs.to_bits()
        ),
        (None, Err(_)) => {}
        (ours, theirs) => panic!("{text}: {ours:?} but {theirs:?}"),
    }
}

#[test]
fn parses_a_tenth() {
    assert_eq!(parse("0.1").map(val), Some(0.1));
}

#[test]
fn reads_every_notation() {
    for text in [
        "0", "-0", "+0", "1", "+1", "-1", "5.", ".5", "-.5", "3.14", "1e5", "1E5", "1e+5", "1e-5",
        "2.5E10", "007", "00.10", "inf", "-inf", "+inf", "INF", "Infinity", "infinity", "INFINITY",
        "-iNfInItY", "nan", "NaN", "-nan", "+NAN", "1.e3", ".1e1", "100.00000000",
    ] {
        check_text(text);
        assert!(parse(text).is_some(), "{text}");
    }
}

#[test]
fn refuses_what_is_no_number() {
    for text in [
        "", " ", ".", "-", "+", "e5", "1e", "1e+", "1e-", ".e1", "--1", "+-1", "1.2.3", "1 ", " 1",
        "1_000", "0x10", "1e5.0", "in", "infi", "infinit", "nano", "invalid", "1,5", "\u{661}",
        "1e\u{661}", "1f", "- 1", "e", "1ee5",
    ] {
        check_text(text);
        assert!(parse(text).is_none(), "{text}");
    }
}

#[test]
fn reads_the_ends_of_the_range() {
    for text in [
        "1.7976931348623157e308",
        "1.7976931348623158e308",
        "1.7976931348623159e308",
        "1.797693134862315807937e308",
        "1.8e308",
        "1e309",
        "1e400",
        "1e99999999999999999999",
        "-1e99999999999999999999",
        "0e99999999999999999999",
        "1e-99999999999999999999",
        "4.9e-324",
        "5e-324",
        "2.5e-324",
        "2.4703282292062327208e-324",
        "2.4703282292062328e-324",
        "2.4e-324",
        "1e-400",
        "2.2250738585072011e-308",
        "2.2250738585072012e-308",
        "2.2250738585072014e-308",
        "9007199254740993",
        "9007199254740992.5",
        "9007199254740993.00000000000000000000000000000000000000000000000001",
        "9007199254740995",
        "123456789012345678901234567890",
        "0.000000000000000000000000000000000000000000000001",
        "100000000000000000000000000000000000000000000e-44",
        "0.1000000000000000055511151231257827021181583404541015625",
        "0.10000000000000001249000902703301107977",
    ] {
        check_text(text);
    }
}

#[test]
fn reads_long_digit_strings() {
    let zeros = "0".repeat(400);
    let nines = "9".repeat(400);
    let half = format!("1.{}5", "0".repeat(800));
    for text in [
        format!("1{zeros}"),
        format!("0.{zeros}1"),
        format!("{nines}e-400"),
        format!("0.{nines}"),
        format!("{zeros}{nines}e-390"),
        format!("1{zeros}e-400"),
        half,
    ] {
        check_text(&text);
    }
}

#[test]
fn reads_back_what_is_printed() {
    let mut mixer = Mixer { state: 0xdead_beef_cafe_f00d };
    for _ in 0..2_000 {
        let x = f64::from_bits(mixer.next());
        if x.is_nan() {
            continue;
        }
        for text in [format!("{x:e}"), format!("{x}")] {
            assert!(agree(parse(&text).unwrap(), x), "{text}");
        }
    }
}

#[test]
fn reads_random_decimals() {
    let mut mixer = Mixer { state: 0x0123_4567_89ab_cdef };
    for _ in 0..10_000 {
        let digits = mixer.next() >> (mixer.next() % 60);
        let places = (mixer.next() % 12) as usize;
        let scaled = format!("{digits:0>width$}", width = places + 1);
        let (whole, fraction) = scaled.split_at(scaled.len() - places);
        check_text(&format!("{whole}.{fraction}"));
        let exponent = (mixer.next() % 660) as i64 - 340;
        check_text(&format!("{whole}.{fraction}e{exponent}"));
    }
}

#[test]
fn reads_halfway_points() {
    let mut mixer = Mixer { state: 0x5555_1234_9876_aaaa };
    for _ in 0..200 {
        // Half a unit in the last place above a number below 2^60 is an exact decimal.
        let significand = (1u128 << 52) + (mixer.next() >> 12) as u128;
        let shift = (mixer.next() % 7) + 1;
        let middle = (2 * significand + 1) << (shift - 1);
        check_text(&format!("{middle}"));
        check_text(&format!("{middle}.0000000000000000000000000000000000000001"));
        check_text(&format!("{}.9999999999999999999999999999999999999999", middle - 1));
    }
}
