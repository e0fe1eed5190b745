//! Laws of reading numbers, and of the text that they stand in.

use crate::binary64::Binary64;
use crate::decimal::{
    all_digits, ascii_lower, decimal_code, digits_value, exponent_value, is_digit, number_parts,
    parsed, spells, ten_to,
};
use crate::laws::numbers::law_rounding_is_total;
use crate::rounding::INFINITY_CODE;
use crate::text::{
    first_of, is_white_space, lemma_first_of, occurs_at, occurs_in, trim_end, trim_start, trimmed,
    unsigned,
};
use vstd::arithmetic::power::{lemma_pow0, lemma_pow1, lemma_pow_adds, pow};
use vstd::arithmetic::power2::pow2;
use vstd::prelude::*;

verus! {

/// A run of decimal digits.
pub open spec fn digits(s: Seq<char>) -> bool {
    forall|i: int| 0 <= i < s.len() ==> '0' <= #[trigger] s[i] <= '9'
}

/// Digits count by their places.
pub proof fn law_digits_count_by_their_places(a: Seq<char>, b: Seq<char>, c: char)
    requires
        digits(a),
        digits(b),
        '0' <= c <= '9',
    ensures
        digits_value(Seq::empty()) == 0,
        digits_value(seq![c]) == c as int - '0' as int,
        digits_value(a + b) == digits_value(a) * pow(10, b.len()) + digits_value(b),
    decreases b.len(),
{
    assert(seq![c].drop_last() =~= Seq::<char>::empty());
    assert(digits_value(Seq::<char>::empty()) == 0);
    lemma_pow0(10);
    if b.len() == 0 {
        assert(a + b =~= a);
        assert(digits_value(a) * 1 == digits_value(a));
    } else {
        let head = b.drop_last();
        assert forall|i: int| 0 <= i < head.len() implies '0' <= #[trigger] head[i] <= '9' by {
            assert('0' <= b[i] <= '9');
        }
        assert('0' <= b[b.len() - 1] <= '9');
        law_digits_count_by_their_places(a, head, c);
        assert((a + b).drop_last() =~= a + head);
        assert((a + b).last() == b.last());
        lemma_pow1(10);
        lemma_pow_adds(10, 1, head.len());
        let x = digits_value(a) as int;
        let p = pow(10, head.len());
        assert(10 * (x * p) == x * (10 * p)) by (nonlinear_arith);
    }
}

proof fn lemma_tens(e: nat)
    ensures
        ten_to(e) == pow(10, e),
        ten_to(e) > 0,
    decreases e,
{
    lemma_pow0(10);
    lemma_pow1(10);
    if e > 0 {
        lemma_tens((e - 1) as nat);
        lemma_pow_adds(10, 1, (e - 1) as nat);
    }
}

proof fn lemma_digits_are_digits(s: Seq<char>)
    requires
        digits(s),
    ensures
        all_digits(s),
{
    assert forall|i: int| 0 <= i < s.len() implies is_digit(#[trigger] s[i]) by {
        assert('0' <= s[i] <= '9');
    }
}

/// `n * 10^e` units of one, rounded.
pub open spec fn scaled(n: nat, e: int) -> Binary64 {
    if e >= 0 {
        Binary64::rounded(false, (n * pow(10, e as nat) * pow2(1074)) as nat, 1)
    } else {
        Binary64::rounded(false, n * pow2(1074), pow(10, (-e) as nat) as nat)
    }
}

proof fn lemma_scaled(n: nat, e: int)
    ensures
        scaled(n, e) == Binary64::of(false, decimal_code(n, e)),
{
    if e >= 0 {
        lemma_tens(e as nat);
    } else {
        lemma_tens((-e) as nat);
    }
}

/// Text that starts like a number spells no word.
proof fn lemma_no_word(s: Seq<char>)
    requires
        s.len() > 0,
        '0' <= s[0] <= '9' || s[0] == '.',
    ensures
        unsigned(s) == s,
        parsed(s) == match number_parts(s) {
            Some((d, e)) => Some(Binary64::of(false, decimal_code(digits_value(d), e))),
            None => None,
        },
{
    assert(ascii_lower(s[0]) != 'i' && ascii_lower(s[0]) != 'n');
    let inf = seq!['i', 'n', 'f'];
    let infinity = seq!['i', 'n', 'f', 'i', 'n', 'i', 't', 'y'];
    let nan = seq!['n', 'a', 'n'];
    assert(inf[0] == 'i' && infinity[0] == 'i' && nan[0] == 'n');
    assert(!spells(s, inf) && !spells(s, infinity) && !spells(s, nan));
}

/// Digits alone denote the number nearest to their value.
pub proof fn law_whole_numbers(whole: Seq<char>)
    requires
        digits(whole),
        whole.len() > 0,
    ensures
        parsed(whole) == Some(scaled(digits_value(whole), 0)),
{
    assert('0' <= whole[0] <= '9');
    lemma_no_word(whole);
    let n = whole.len() as int;
    assert forall|j: int| 0 <= j < n implies #[trigger] whole[j] != 'e' && whole[j] != 'E' by {
        assert('0' <= whole[j] <= '9');
    }
    lemma_first_of(whole, 'e', 'E', n);
    assert(whole.take(n) =~= whole);
    assert forall|j: int| 0 <= j < n implies #[trigger] whole[j] != '.' && whole[j] != '.' by {
        assert('0' <= whole[j] <= '9');
    }
    lemma_first_of(whole, '.', '.', n);
    assert(whole + Seq::<char>::empty() =~= whole);
    lemma_digits_are_digits(whole);
    lemma_scaled(digits_value(whole), 0);
}

proof fn lemma_mantissa(whole: Seq<char>, fraction: Seq<char>)
    requires
        digits(whole),
        digits(fraction),
        whole.len() + fraction.len() > 0,
    ensures
        ({
            let m = whole + seq!['.'] + fraction;
            &&& first_of(m, '.', '.') == whole.len()
            &&& m.take(whole.len() as int) == whole
            &&& m.skip(whole.len() as int + 1) == fraction
            &&& forall|j: int| 0 <= j < m.len() ==> #[trigger] m[j] != 'e' && m[j] != 'E'
            &&& all_digits(whole + fraction)
        }),
{
    let m = whole + seq!['.'] + fraction;
    assert forall|j: int| 0 <= j < whole.len() implies #[trigger] m[j] != '.' && m[j] != '.' by {
        assert('0' <= whole[j] <= '9');
    }
    lemma_first_of(m, '.', '.', whole.len() as int);
    assert(m.take(whole.len() as int) =~= whole);
    assert(m.skip(whole.len() as int + 1) =~= fraction);
    assert forall|j: int| 0 <= j < m.len() implies #[trigger] m[j] != 'e' && m[j] != 'E' by {
        if j < whole.len() {
            assert('0' <= whole[j] <= '9');
        } else if j > whole.len() {
            assert('0' <= fraction[j - whole.len() - 1] <= '9');
        }
    }
    let d = whole + fraction;
    assert forall|i: int| 0 <= i < d.len() implies is_digit(#[trigger] d[i]) by {
        if i < whole.len() {
            assert('0' <= whole[i] <= '9');
        } else {
            assert('0' <= fraction[i - whole.len()] <= '9');
        }
    }
}

/// Digits around a point denote the number nearest to them, scaled down by ten for each
/// place behind the point.
pub proof fn law_decimal_fractions(whole: Seq<char>, fraction: Seq<char>)
    requires
        digits(whole),
        digits(fraction),
        whole.len() + fraction.len() > 0,
    ensures
        parsed(whole + seq!['.'] + fraction) == Some(
            scaled(digits_value(whole + fraction), -(fraction.len() as int)),
        ),
{
    let m = whole + seq!['.'] + fraction;
    lemma_mantissa(whole, fraction);
    assert('0' <= m[0] <= '9' || m[0] == '.') by {
        if whole.len() > 0 {
            assert('0' <= whole[0] <= '9');
        }
    }
    lemma_no_word(m);
    lemma_first_of(m, 'e', 'E', m.len() as int);
    assert(m.take(m.len() as int) =~= m);
    lemma_scaled(digits_value(whole + fraction), -(fraction.len() as int));
}

/// An exponent scales by powers of ten.
pub proof fn law_exponents(
    whole: Seq<char>,
    fraction: Seq<char>,
    letter: char,
    minus: bool,
    exponent: Seq<char>,
)
    requires
        digits(whole),
        digits(fraction),
        whole.len() + fraction.len() > 0,
        letter == 'e' || letter == 'E',
        digits(exponent),
        exponent.len() > 0,
    ensures
        parsed(
            whole + seq!['.'] + fraction + seq![letter] + (if minus {
                seq!['-']
            } else {
                seq!['+']
            }) + exponent,
        ) == Some(
            scaled(
                digits_value(whole + fraction),
                (if minus {
                    -(digits_value(exponent) as int)
                } else {
                    digits_value(exponent) as int
                }) - fraction.len(),
            ),
        ),
        !minus ==> parsed(whole + seq!['.'] + fraction + seq![letter] + exponent) == parsed(
            whole + seq!['.'] + fraction + seq![letter] + seq!['+'] + exponent,
        ),
{
    let m = whole + seq!['.'] + fraction;
    lemma_mantissa(whole, fraction);
    let sign = if minus {
        seq!['-']
    } else {
        seq!['+']
    };
    let x = sign + exponent;
    let s = m + seq![letter] + sign + exponent;
    assert(s =~= m + seq![letter] + x);
    lemma_exponent_part(m, letter, x, whole, fraction);
    assert(unsigned(x) =~= exponent);
    lemma_digits_are_digits(exponent);
    let e = if minus {
        -(digits_value(exponent) as int)
    } else {
        digits_value(exponent) as int
    };
    assert(exponent_value(x) == Some(e));
    lemma_scaled(digits_value(whole + fraction), e - fraction.len());
    if !minus {
        lemma_exponent_part(m, letter, exponent, whole, fraction);
        assert('0' <= exponent[0] <= '9');
        assert(unsigned(exponent) == exponent);
        assert(exponent_value(exponent) == Some(e));
    }
}

proof fn lemma_exponent_part(
    m: Seq<char>,
    letter: char,
    x: Seq<char>,
    whole: Seq<char>,
    fraction: Seq<char>,
)
    requires
        digits(whole),
        digits(fraction),
        whole.len() + fraction.len() > 0,
        m == whole + seq!['.'] + fraction,
        letter == 'e' || letter == 'E',
    ensures
        parsed(m + seq![letter] + x) == match exponent_value(x) {
            Some(e) => Some(
                Binary64::of(
                    false,
                    decimal_code(digits_value(whole + fraction), e - fraction.len()),
                ),
            ),
            None => None,
        },
{
    let s = m + seq![letter] + x;
    lemma_mantissa(whole, fraction);
    assert('0' <= s[0] <= '9' || s[0] == '.') by {
        if whole.len() > 0 {
            assert('0' <= whole[0] <= '9');
        }
    }
    lemma_no_word(s);
    assert forall|j: int| 0 <= j < m.len() implies #[trigger] s[j] != 'e' && s[j] != 'E' by {
        assert(s[j] == m[j]);
    }
    lemma_first_of(s, 'e', 'E', m.len() as int);
    assert(s.take(m.len() as int) =~= m);
    assert(s.skip(m.len() as int + 1) =~= x);
}

/// A point with nothing behind it changes nothing.
pub proof fn law_point_may_be_missing(whole: Seq<char>, letter: char, exponent: Seq<char>)
    requires
        digits(whole),
        whole.len() > 0,
        letter == 'e' || letter == 'E',
    ensures
        parsed(whole + seq![letter] + exponent) == parsed(
            whole + seq!['.'] + seq![letter] + exponent,
        ),
{
    let none = Seq::<char>::empty();
    let s = whole + seq![letter] + exponent;
    let n = whole.len() as int;
    assert('0' <= whole[0] <= '9');
    lemma_no_word(s);
    assert forall|j: int| 0 <= j < n implies #[trigger] s[j] != 'e' && s[j] != 'E' by {
        assert('0' <= whole[j] <= '9');
    }
    lemma_first_of(s, 'e', 'E', n);
    assert(s.take(n) =~= whole);
    assert forall|j: int| 0 <= j < n implies #[trigger] whole[j] != '.' && whole[j] != '.' by {
        assert('0' <= whole[j] <= '9');
    }
    lemma_first_of(whole, '.', '.', n);
    assert(whole + none =~= whole);
    assert(whole.take(n) =~= whole);
    assert(s.skip(n + 1) =~= exponent);
    lemma_digits_are_digits(whole);
    let m = whole + seq!['.'] + none;
    lemma_exponent_part(m, letter, exponent, whole, none);
    assert(number_parts(s) == match exponent_value(exponent) {
        Some(x) => Some((whole, x)),
        None => None,
    });
    assert(m + seq![letter] + exponent =~= whole + seq!['.'] + seq![letter] + exponent);
}

/// A sign in front turns the number round, or does nothing.
pub proof fn law_leading_signs(s: Seq<char>)
    requires
        s.len() > 0 ==> s[0] != '-' && s[0] != '+',
    ensures
        parsed(seq!['+'] + s) == parsed(s),
        parsed(s) is None ==> parsed(seq!['-'] + s) is None,
        parsed(s) matches Some(x) ==> parsed(seq!['-'] + s) == Some(x.negation()) && x.bits
            < 0x8000_0000_0000_0000,
{
    assert((seq!['+'] + s).skip(1) =~= s);
    assert((seq!['-'] + s).skip(1) =~= s);
    match number_parts(s) {
        Some((d, e)) => {
            lemma_code_bound(digits_value(d), e);
        },
        None => {},
    }
}

proof fn lemma_code_bound(n: nat, e: int)
    ensures
        decimal_code(n, e) <= INFINITY_CODE,
{
    if e >= 0 {
        law_rounding_is_total(n * ten_to(e as nat) * pow2(1074), 1);
    } else {
        lemma_tens((-e) as nat);
        law_rounding_is_total(n * pow2(1074), ten_to((-e) as nat));
    }
}

/// A character is a letter, in either case.
pub open spec fn letter(c: char, lower: char, upper: char) -> bool {
    c == lower || c == upper
}

/// `inf`, in any case.
pub open spec fn says_inf(s: Seq<char>) -> bool {
    s.len() == 3 && letter(s[0], 'i', 'I') && letter(s[1], 'n', 'N') && letter(s[2], 'f', 'F')
}

/// `infinity`, in any case.
pub open spec fn says_infinity(s: Seq<char>) -> bool {
    s.len() == 8 && letter(s[0], 'i', 'I') && letter(s[1], 'n', 'N') && letter(s[2], 'f', 'F')
        && letter(s[3], 'i', 'I') && letter(s[4], 'n', 'N') && letter(s[5], 'i', 'I') && letter(
        s[6],
        't',
        'T',
    ) && letter(s[7], 'y', 'Y')
}

/// `nan`, in any case.
pub open spec fn says_nan(s: Seq<char>) -> bool {
    s.len() == 3 && letter(s[0], 'n', 'N') && letter(s[1], 'a', 'A') && letter(s[2], 'n', 'N')
}

proof fn lemma_lower(c: char)
    ensures
        ascii_lower(c) == 'i' <==> letter(c, 'i', 'I'),
        ascii_lower(c) == 'n' <==> letter(c, 'n', 'N'),
        ascii_lower(c) == 'f' <==> letter(c, 'f', 'F'),
        ascii_lower(c) == 't' <==> letter(c, 't', 'T'),
        ascii_lower(c) == 'y' <==> letter(c, 'y', 'Y'),
        ascii_lower(c) == 'a' <==> letter(c, 'a', 'A'),
{
}

proof fn lemma_spelled(s: Seq<char>)
    ensures
        spells(s, seq!['i', 'n', 'f']) <==> says_inf(s),
        spells(s, seq!['i', 'n', 'f', 'i', 'n', 'i', 't', 'y']) <==> says_infinity(s),
        spells(s, seq!['n', 'a', 'n']) <==> says_nan(s),
{
    let inf = seq!['i', 'n', 'f'];
    let infinity = seq!['i', 'n', 'f', 'i', 'n', 'i', 't', 'y'];
    let nan = seq!['n', 'a', 'n'];
    assert forall|i: int| 0 <= i < s.len() implies {
        &&& #[trigger] ascii_lower(s[i]) == 'i' <==> letter(s[i], 'i', 'I')
        &&& ascii_lower(s[i]) == 'n' <==> letter(s[i], 'n', 'N')
        &&& ascii_lower(s[i]) == 'f' <==> letter(s[i], 'f', 'F')
        &&& ascii_lower(s[i]) == 't' <==> letter(s[i], 't', 'T')
        &&& ascii_lower(s[i]) == 'y' <==> letter(s[i], 'y', 'Y')
        &&& ascii_lower(s[i]) == 'a' <==> letter(s[i], 'a', 'A')
    } by {
        lemma_lower(s[i]);
    }
    if s.len() == 3 {
        assert(ascii_lower(s[0]) == ascii_lower(s[0]));
        assert(ascii_lower(s[1]) == ascii_lower(s[1]));
        assert(ascii_lower(s[2]) == ascii_lower(s[2]));
        if spells(s, inf) {
            assert(ascii_lower(s[0]) == inf[0] && ascii_lower(s[1]) == inf[1] && ascii_lower(s[2])
                == inf[2]);
        }
        if spells(s, nan) {
            assert(ascii_lower(s[0]) == nan[0] && ascii_lower(s[1]) == nan[1] && ascii_lower(s[2])
                == nan[2]);
        }
    }
    if s.len() == 8 && spells(s, infinity) {
        assert(ascii_lower(s[0]) == infinity[0] && ascii_lower(s[1]) == infinity[1] && ascii_lower(
            s[2],
        ) == infinity[2] && ascii_lower(s[3]) == infinity[3] && ascii_lower(s[4]) == infinity[4]
            && ascii_lower(s[5]) == infinity[5] && ascii_lower(s[6]) == infinity[6] && ascii_lower(
            s[7],
        ) == infinity[7]);
    }
}

/// The words for the numbers that have no digits, in any case.
pub proof fn law_words(s: Seq<char>)
    ensures
        says_inf(s) || says_infinity(s) ==> parsed(s) == Some(
            Binary64 { bits: 0x7ff0_0000_0000_0000 },
        ),
        says_nan(s) ==> (parsed(s) matches Some(x) && x.is_nan()),
{
    lemma_spelled(s);
    if s.len() > 0 {
        assert(says_inf(s) || says_infinity(s) || says_nan(s) ==> unsigned(s) == s);
    }
}

/// A character of a number that is written with digits.
pub open spec fn numeral(c: char) -> bool {
    '0' <= c <= '9' || c == '.' || c == 'e' || c == 'E' || c == '+' || c == '-'
}

/// The rest of a text behind a sign.
pub open spec fn behind_sign(s: Seq<char>) -> Seq<char> {
    if s.len() > 0 && (s[0] == '-' || s[0] == '+') {
        s.skip(1)
    } else {
        s
    }
}

/// A text that is a number is one of the words, with or without a sign, or has a digit in
/// it and no character that numerals do not have.
pub proof fn law_what_numbers_are_made_of(s: Seq<char>)
    requires
        parsed(s) is Some,
    ensures
        says_inf(behind_sign(s)) || says_infinity(behind_sign(s)) || says_nan(behind_sign(s)) || {
            &&& forall|i: int| 0 <= i < s.len() ==> numeral(#[trigger] s[i])
            &&& exists|j: int| 0 <= j < s.len() && '0' <= #[trigger] s[j] <= '9'
        },
{
    let rest = unsigned(s);
    assert(rest == behind_sign(s));
    lemma_spelled(rest);
    if !(says_inf(rest) || says_infinity(rest) || says_nan(rest)) {
        lemma_numeral_parts(rest);
        let k = s.len() - rest.len();
        assert forall|i: int| 0 <= i < s.len() implies numeral(#[trigger] s[i]) by {
            if i >= k {
                assert(rest[i - k] == s[i]);
                assert(numeral(rest[i - k]));
            }
        }
        let j = choose|j: int| 0 <= j < rest.len() && '0' <= #[trigger] rest[j] <= '9';
        assert('0' <= s[j + k] <= '9');
    }
}

proof fn lemma_first_of_limit(s: Seq<char>, a: char, b: char)
    ensures
        first_of(s, a, b) <= s.len(),
        first_of(s, a, b) < s.len() ==> s[first_of(s, a, b) as int] == a || s[first_of(
            s,
            a,
            b,
        ) as int] == b,
    decreases s.len(),
{
    if s.len() > 0 && s[0] != a && s[0] != b {
        lemma_first_of_limit(s.skip(1), a, b);
    }
}

proof fn lemma_numeral_parts(s: Seq<char>)
    requires
        number_parts(s) is Some,
    ensures
        forall|i: int| 0 <= i < s.len() ==> numeral(#[trigger] s[i]),
        exists|j: int| 0 <= j < s.len() && '0' <= #[trigger] s[j] <= '9',
{
    let e = first_of(s, 'e', 'E') as int;
    lemma_first_of_limit(s, 'e', 'E');
    let mantissa = s.take(e);
    let point = first_of(mantissa, '.', '.') as int;
    lemma_first_of_limit(mantissa, '.', '.');
    let fraction = if point < mantissa.len() {
        mantissa.skip(point + 1)
    } else {
        Seq::empty()
    };
    let d = mantissa.take(point) + fraction;
    assert(all_digits(d) && d.len() > 0);
    assert(is_digit(d[0]));
    if point > 0 {
        assert(d[0] == s[0]);
    } else {
        assert(d[0] == s[1]);
    }
    assert forall|i: int| 0 <= i < s.len() implies numeral(#[trigger] s[i]) by {
        if i < point {
            assert(is_digit(d[i]));
        } else if i < e && i > point {
            assert(is_digit(d[i - 1]));
            assert(d[i - 1] == s[i]);
        } else if i > e {
            let x = s.skip(e + 1);
            let u = unsigned(x);
            if i == e + 1 && u.len() < x.len() {
                assert(x[0] == s[i]);
            } else {
                let k = i - (e + 1) - (x.len() - u.len());
                assert(is_digit(u[k]));
                assert(u[k] == s[i]);
            }
        }
    }
}

/// A number that is written with digits has at most one point and one exponent letter,
/// a point never behind that letter, signs only in front or right behind it, and a digit
/// or a point at its end.
pub proof fn law_shape_of_a_number(s: Seq<char>, i: int, j: int)
    requires
        parsed(s) is Some,
        forall|k: int| 0 <= k < s.len() ==> numeral(#[trigger] s[k]),
        0 <= i < s.len(),
        0 <= j < s.len(),
    ensures
        s[i] == '.' && s[j] == '.' ==> i == j,
        (s[i] == 'e' || s[i] == 'E') && (s[j] == 'e' || s[j] == 'E') ==> i == j,
        (s[i] == 'e' || s[i] == 'E') && s[j] == '.' ==> j < i,
        (s[i] == '+' || s[i] == '-') && i > 0 ==> s[i - 1] == 'e' || s[i - 1] == 'E',
        '0' <= s.last() <= '9' || s.last() == '.',
{
    let rest = unsigned(s);
    let k = s.len() - rest.len();
    assert forall|m: int| 0 <= m < rest.len() implies numeral(#[trigger] rest[m]) by {
        assert(rest[m] == s[m + k]);
    }
    if rest.len() > 0 {
        assert(numeral(rest[0]));
    }
    let inf = seq!['i', 'n', 'f'];
    let infinity = seq!['i', 'n', 'f', 'i', 'n', 'i', 't', 'y'];
    let nan = seq!['n', 'a', 'n'];
    assert(inf[0] == 'i' && infinity[0] == 'i' && nan[0] == 'n');
    assert(!spells(rest, inf) && !spells(rest, infinity) && !spells(rest, nan)) by {
        if rest.len() > 0 {
            let c = rest[0];
            assert(ascii_lower(c) != 'i' && ascii_lower(c) != 'n');
        }
    }
    lemma_shape(rest);
    if i >= k {
        lemma_shape_at(rest, i - k);
        assert(rest[i - k] == s[i]);
    }
    if j >= k {
        lemma_shape_at(rest, j - k);
        assert(rest[j - k] == s[j]);
    }
    if i > 0 && i == k {
        lemma_shape_at(rest, 0);
    }
    if i > k {
        assert(rest[i - k - 1] == s[i - 1]);
    }
    assert(rest.last() == s.last());
}

/// Where the exponent letter of a number stands, or its end.
spec fn letter_at(s: Seq<char>) -> int {
    first_of(s, 'e', 'E') as int
}

/// Where the point of a number stands, or the end of its digits.
spec fn point_at(s: Seq<char>) -> int {
    first_of(s.take(letter_at(s)), '.', '.') as int
}

proof fn lemma_shape(s: Seq<char>)
    requires
        number_parts(s) is Some,
    ensures
        0 <= point_at(s) <= letter_at(s) <= s.len(),
        s.len() > 0,
        '0' <= s.last() <= '9' || s.last() == '.',
{
    lemma_first_of_limit(s, 'e', 'E');
    let e = letter_at(s);
    lemma_first_of_limit(s.take(e), '.', '.');
    lemma_numeral_parts(s);
    let n = s.len() - 1;
    lemma_shape_at(s, n);
    if e == n {
        assert(exponent_value(s.skip(e + 1)) is Some);
        assert(s.skip(e + 1).len() == 0);
    } else if e < n {
        let x = s.skip(e + 1);
        let u = unsigned(x);
        assert(is_digit(u[u.len() - 1]));
        assert(u[u.len() - 1] == s[n]);
    }
}

proof fn lemma_shape_at(s: Seq<char>, i: int)
    requires
        number_parts(s) is Some,
        0 <= i < s.len(),
    ensures
        s[i] == '.' ==> i == point_at(s) && i < letter_at(s),
        s[i] == 'e' || s[i] == 'E' ==> i == letter_at(s),
        s[i] == '+' || s[i] == '-' ==> i == letter_at(s) + 1 && (s[i - 1] == 'e' || s[i - 1]
            == 'E'),
{
    let e = letter_at(s);
    lemma_first_of_limit(s, 'e', 'E');
    let mantissa = s.take(e);
    let point = point_at(s);
    lemma_first_of_limit(mantissa, '.', '.');
    let fraction = if point < mantissa.len() {
        mantissa.skip(point + 1)
    } else {
        Seq::empty()
    };
    let d = mantissa.take(point) + fraction;
    assert(all_digits(d));
    if i < point {
        assert(is_digit(d[i]));
    } else if point < i && i < e {
        assert(is_digit(d[i - 1]));
        assert(d[i - 1] == s[i]);
    } else if i == point && i < e {
        assert(mantissa[i] == s[i]);
    } else if i > e {
        let x = s.skip(e + 1);
        let u = unsigned(x);
        if i == e + 1 && u.len() < x.len() {
            assert(x[0] == s[i]);
        } else {
            let k = i - (e + 1) - (x.len() - u.len());
            assert(is_digit(u[k]));
            assert(u[k] == s[i]);
        }
    }
}

/// Trimming takes the white space off both ends, and nothing else.
pub proof fn law_trimming(s: Seq<char>) -> (r: (int, int))
    ensures
        0 <= r.0 <= r.1 <= s.len(),
        trimmed(s) == s.subrange(r.0, r.1),
        forall|i: int| 0 <= i < r.0 ==> is_white_space(#[trigger] s[i]),
        forall|i: int| r.1 <= i < s.len() ==> is_white_space(#[trigger] s[i]),
        r.0 < r.1 ==> !is_white_space(s[r.0]) && !is_white_space(s[r.1 - 1]),
{
    let from = lemma_trim_start(s);
    let t = s.skip(from);
    let to = lemma_trim_end(t);
    assert(s.subrange(from, from + to) =~= t.take(to));
    assert forall|i: int| from + to <= i < s.len() implies is_white_space(#[trigger] s[i]) by {
        assert(t[i - from] == s[i]);
    }
    if to > 0 {
        assert(t[0] == s[from]);
        assert(t[to - 1] == s[from + to - 1]);
    }
    (from, from + to)
}

proof fn lemma_trim_start(s: Seq<char>) -> (from: int)
    ensures
        0 <= from <= s.len(),
        trim_start(s) == s.skip(from),
        forall|i: int| 0 <= i < from ==> is_white_space(#[trigger] s[i]),
        from < s.len() ==> !is_white_space(s[from]),
    decreases s.len(),
{
    if s.len() > 0 && is_white_space(s[0]) {
        let more = lemma_trim_start(s.skip(1));
        assert(s.skip(1).skip(more) =~= s.skip(more + 1));
        assert forall|i: int| 0 <= i < more + 1 implies is_white_space(#[trigger] s[i]) by {
            if i > 0 {
                assert(s.skip(1)[i - 1] == s[i]);
            }
        }
        more + 1
    } else {
        assert(s.skip(0) =~= s);
        0
    }
}

proof fn lemma_trim_end(s: Seq<char>) -> (to: int)
    ensures
        0 <= to <= s.len(),
        trim_end(s) == s.take(to),
        forall|i: int| to <= i < s.len() ==> is_white_space(#[trigger] s[i]),
        to > 0 ==> !is_white_space(s[to - 1]),
    decreases s.len(),
{
    if s.len() > 0 && is_white_space(s.last()) {
        let head = s.drop_last();
        let to = lemma_trim_end(head);
        assert(head.take(to) =~= s.take(to));
        assert forall|i: int| to <= i < s.len() implies is_white_space(#[trigger] s[i]) by {
            if i < head.len() {
                assert(head[i] == s[i]);
            }
        }
        to
    } else {
        assert(s.take(s.len() as int) =~= s);
        s.len() as int
    }
}

/// A pattern occurs in a text exactly when the text is something, the pattern and
/// something else.
pub proof fn law_occurrence(left: Seq<char>, pattern: Seq<char>, right: Seq<char>, s: Seq<char>)
    ensures
        occurs_in(left + pattern + right, pattern),
        occurs_in(s, pattern) ==> exists|a: Seq<char>, b: Seq<char>|
            s == #[trigger] (a + pattern + b),
{
    let all = left + pattern + right;
    let i = left.len() as int;
    assert(all.subrange(i, i + pattern.len()) =~= pattern);
    assert(occurs_at(all, pattern, i));
    if occurs_in(s, pattern) {
        let k = choose|k: int| occurs_at(s, pattern, k);
        let a = s.take(k);
        let b = s.skip(k + pattern.len());
        assert(s =~= a + s.subrange(k, k + pattern.len()) + b);
        assert(s == a + pattern + b);
    }
}

} // verus!
