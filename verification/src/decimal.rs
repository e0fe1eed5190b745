//! Decimal notation for binary64 numbers.
//!
//! A number is written as an optional sign followed by `inf`, `infinity` or `nan`
//! in any case, or by decimal digits with an optional point and an optional
//! exponent.  At least one digit stands before or after the point.

use crate::binary64::{Binary64, NAN_CODE};
use crate::natural::{compare, natural, scale, shift, Comparison};
use crate::rounding::{
    lemma_code_split, lemma_exact_is_nearest, lemma_magnitude_split, lemma_round_code, magnitude,
    nearest, round_code, round_quotient, rounds_below, scale_down, scale_up, FRACTION,
    INFINITY_CODE,
};
use crate::text::{char_vec, find_first, first_of, unsigned};
use vstd::arithmetic::power2::pow2;
use vstd::prelude::*;

verus! {

/// `10^e`.
pub open spec fn ten_to(e: nat) -> nat
    decreases e,
{
    if e == 0 {
        1
    } else {
        10 * ten_to((e - 1) as nat)
    }
}

pub open spec fn is_digit(c: char) -> bool {
    '0' <= c && c <= '9'
}

pub open spec fn all_digits(s: Seq<char>) -> bool {
    forall|i: int| 0 <= i < s.len() ==> is_digit(#[trigger] s[i])
}

/// The natural that a run of digits denotes.
pub open spec fn digits_value(s: Seq<char>) -> nat
    decreases s.len(),
{
    if s.len() == 0 {
        0
    } else {
        (10 * digits_value(s.drop_last()) + (s.last() as int - '0' as int)) as nat
    }
}

/// The lower-case form of an ASCII letter; other characters are left alone.
pub open spec fn ascii_lower(c: char) -> char {
    if 'A' <= c && c <= 'Z' {
        (c as int + 32) as char
    } else {
        c
    }
}

/// `s` spells the lower-case `word`, in any case.
pub open spec fn spells(s: Seq<char>, word: Seq<char>) -> bool {
    &&& s.len() == word.len()
    &&& forall|i: int| 0 <= i < s.len() ==> ascii_lower(#[trigger] s[i]) == word[i]
}

/// The exponent that a signed run of digits denotes.
pub open spec fn exponent_value(s: Seq<char>) -> Option<int> {
    let digits = unsigned(s);
    if digits.len() > 0 && all_digits(digits) {
        if s[0] == '-' {
            Some(-(digits_value(digits) as int))
        } else {
            Some(digits_value(digits) as int)
        }
    } else {
        None
    }
}

/// The digits of an unsigned number, and the power of ten that scales them.
pub open spec fn number_parts(s: Seq<char>) -> Option<(Seq<char>, int)> {
    let e = first_of(s, 'e', 'E');
    let mantissa = s.take(e as int);
    let point = first_of(mantissa, '.', '.');
    let fraction = if point < mantissa.len() {
        mantissa.skip((point + 1) as int)
    } else {
        Seq::empty()
    };
    let digits = mantissa.take(point as int) + fraction;
    if digits.len() == 0 || !all_digits(digits) {
        None
    } else if e == s.len() {
        Some((digits, -(fraction.len() as int)))
    } else {
        match exponent_value(s.skip((e + 1) as int)) {
            Some(x) => Some((digits, x - fraction.len())),
            None => None,
        }
    }
}

/// The code nearest to `digits * 10^exponent`.
pub open spec fn decimal_code(digits: nat, exponent: int) -> nat {
    if exponent >= 0 {
        round_code(digits * ten_to(exponent as nat) * pow2(1074), 1)
    } else {
        round_code(digits * pow2(1074), ten_to((-exponent) as nat))
    }
}

/// The number that `s` denotes, if it is one.
pub open spec fn parsed(s: Seq<char>) -> Option<Binary64> {
    let negative = s.len() > 0 && s[0] == '-';
    let rest = unsigned(s);
    if spells(rest, seq!['i', 'n', 'f']) || spells(
        rest,
        seq!['i', 'n', 'f', 'i', 'n', 'i', 't', 'y'],
    ) {
        Some(Binary64::of(negative, INFINITY_CODE as nat))
    } else if spells(rest, seq!['n', 'a', 'n']) {
        Some(Binary64::of(negative, NAN_CODE as nat))
    } else {
        match number_parts(rest) {
            Some((digits, exponent)) => Some(
                Binary64::of(negative, decimal_code(digits_value(digits), exponent)),
            ),
            None => None,
        }
    }
}

proof fn lemma_ten_to(a: nat, b: nat)
    ensures
        ten_to(a) >= pow2(3 * a),
        ten_to(a) > 0,
        ten_to(a + b) == ten_to(a) * ten_to(b),
    decreases a,
{
    vstd::arithmetic::power2::lemma2_to64();
    if a > 0 {
        lemma_ten_to((a - 1) as nat, b);
        vstd::arithmetic::power2::lemma_pow2_adds(3, (3 * (a - 1)) as nat);
        assert(3 + 3 * (a - 1) == 3 * a);
        let x = ten_to((a - 1) as nat);
        let y = ten_to(b);
        assert(10 * (x * y) == (10 * x) * y) by (nonlinear_arith);
        assert((a + b - 1) as nat == (a - 1) as nat + b);
    } else {
        assert(1 * ten_to(b) == ten_to(b));
    }
}

proof fn lemma_digits_bound(s: Seq<char>)
    requires
        all_digits(s),
    ensures
        digits_value(s) < ten_to(s.len()),
    decreases s.len(),
{
    if s.len() > 0 {
        assert(is_digit(s[s.len() - 1]));
        assert forall|i: int| 0 <= i < s.drop_last().len() implies is_digit(
            #[trigger] s.drop_last()[i],
        ) by {
            assert(is_digit(s[i]));
        }
        lemma_digits_bound(s.drop_last());
    }
}

proof fn lemma_digits_push(s: Seq<char>, c: char)
    requires
        is_digit(c),
    ensures
        digits_value(s.push(c)) == 10 * digits_value(s) + (c as int - '0' as int),
{
    assert(s.push(c).drop_last() =~= s);
}

/// Whether the characters from `from` up to `to` are digits.
fn digits_only(chars: &Vec<char>, from: usize, to: usize) -> (b: bool)
    requires
        from <= to <= chars@.len(),
    ensures
        b == all_digits(chars@.subrange(from as int, to as int)),
{
    let mut i: usize = from;
    let ghost s = chars@.subrange(from as int, to as int);
    while i < to
        invariant
            from <= i <= to <= chars@.len(),
            s == chars@.subrange(from as int, to as int),
            forall|j: int| 0 <= j < i - from ==> is_digit(#[trigger] s[j]),
        decreases to - i,
    {
        let c = chars[i];
        assert(s[i - from] == c);
        if !('0' <= c && c <= '9') {
            return false;
        }
        i = i + 1;
    }
    true
}

/// The digit that a character stands for.
fn digit_of(c: char) -> (d: u32)
    requires
        is_digit(c),
    ensures
        d == c as int - '0' as int,
        d <= 9,
{
    c as u32 - 48
}

/// A run of digits denotes no less than its beginning does.
proof fn lemma_digits_prefix(s: Seq<char>, i: int)
    requires
        all_digits(s),
        0 <= i <= s.len(),
    ensures
        digits_value(s.take(i)) <= digits_value(s),
    decreases s.len(),
{
    if i < s.len() {
        let head = s.drop_last();
        assert(is_digit(s[s.len() - 1]));
        assert forall|j: int| 0 <= j < head.len() implies is_digit(#[trigger] head[j]) by {
            assert(is_digit(s[j]));
        }
        lemma_digits_prefix(head, i);
        assert(head.take(i) =~= s.take(i));
    } else {
        assert(s.take(i) =~= s);
    }
}

/// The value of a run of digits when it fits in 64 bits.
fn small_value(digits: &Vec<char>) -> (r: Option<u64>)
    requires
        all_digits(digits@),
    ensures
        match r {
            Some(v) => v == digits_value(digits@),
            None => digits_value(digits@) > u64::MAX,
        },
{
    let mut v: u64 = 0;
    let mut i: usize = 0;
    assert(digits@.take(0) =~= Seq::<char>::empty());
    while i < digits.len()
        invariant
            i <= digits@.len(),
            all_digits(digits@),
            v == digits_value(digits@.take(i as int)),
        decreases digits.len() - i,
    {
        let c = digits[i];
        assert(is_digit(digits@[i as int]));
        proof {
            assert(digits@.take(i + 1) =~= digits@.take(i as int).push(c));
            lemma_digits_push(digits@.take(i as int), c);
        }
        let d = digit_of(c);
        if v > (u64::MAX - d as u64) / 10 {
            proof {
                lemma_digits_prefix(digits@, i + 1);
            }
            return None;
        }
        v = v * 10 + d as u64;
        i = i + 1;
    }
    assert(digits@.take(i as int) =~= digits@);
    Some(v)
}

/// The value of a run of digits.
fn large_value(digits: &Vec<char>) -> (v: Vec<u32>)
    requires
        all_digits(digits@),
    ensures
        natural(v@) == digits_value(digits@),
{
    let mut v: Vec<u32> = Vec::new();
    let mut i: usize = 0;
    assert(digits@.take(0) =~= Seq::<char>::empty());
    while i < digits.len()
        invariant
            i <= digits@.len(),
            all_digits(digits@),
            natural(v@) == digits_value(digits@.take(i as int)),
        decreases digits.len() - i,
    {
        let c = digits[i];
        assert(is_digit(digits@[i as int]));
        proof {
            assert(digits@.take(i + 1) =~= digits@.take(i as int).push(c));
            lemma_digits_push(digits@.take(i as int), c);
        }
        let d = digit_of(c);
        v = scale(&v, 10, d as u64);
        i = i + 1;
    }
    assert(digits@.take(i as int) =~= digits@);
    v
}

/// `limbs * 10^e`.
fn scale_by_tens(limbs: &Vec<u32>, e: u128) -> (out: Vec<u32>)
    ensures
        natural(out@) == natural(limbs@) * ten_to(e as nat),
{
    let mut out = scale(limbs, 1, 0);
    let mut i: u128 = 0;
    assert(natural(limbs@) * 1 == natural(limbs@));
    while i < e
        invariant
            i <= e,
            natural(out@) == natural(limbs@) * ten_to(i as nat),
        decreases e - i,
    {
        proof {
            let a = natural(limbs@);
            let t = ten_to(i as nat);
            assert((a * t) * 10 == a * (10 * t)) by (nonlinear_arith);
        }
        out = scale(&out, 10, 0);
        i = i + 1;
    }
    out
}

/// The value of a run of digits, or `cap` when it is larger.
fn capped_value(chars: &Vec<char>, from: usize, cap: u128) -> (v: u128)
    requires
        from <= chars@.len(),
        all_digits(chars@.skip(from as int)),
        cap <= 0x1000_0000_0000_0000_0000_0000_0000_0000,
    ensures
        v == if digits_value(chars@.skip(from as int)) < cap {
            digits_value(chars@.skip(from as int))
        } else {
            cap as nat
        },
{
    let ghost s = chars@.skip(from as int);
    let mut v: u128 = 0;
    let mut i: usize = from;
    assert(s.take(0) =~= Seq::<char>::empty());
    while i < chars.len()
        invariant
            from <= i <= chars@.len(),
            s == chars@.skip(from as int),
            all_digits(s),
            cap <= 0x1000_0000_0000_0000_0000_0000_0000_0000,
            v == if digits_value(s.take(i - from)) < cap {
                digits_value(s.take(i - from))
            } else {
                cap as nat
            },
        decreases chars.len() - i,
    {
        let c = chars[i];
        assert(s[i - from] == c);
        assert(is_digit(s[i - from]));
        proof {
            assert(s.take(i - from + 1) =~= s.take(i - from).push(c));
            lemma_digits_push(s.take(i - from), c);
        }
        let next: u128 = v * 10 + digit_of(c) as u128;
        v = if next < cap {
            next
        } else {
            cap
        };
        i = i + 1;
    }
    assert(s.take(i - from) =~= s);
    v
}

/// The nearest code, found by bisection, to half of `twice` over `den`.
fn bisect(twice: &Vec<u32>, den: &Vec<u32>) -> (code: u64)
    requires
        natural(den@) > 0,
    ensures
        code <= INFINITY_CODE,
        forall|n: nat|
            natural(twice@) == 2 * n ==> #[trigger] nearest(n, natural(den@), code as nat),
{
    let mut low: u64 = 0;
    let mut high: u64 = INFINITY_CODE;
    while low < high
        invariant
            low <= high <= INFINITY_CODE,
            forall|n: nat|
                natural(twice@) == 2 * n && high < INFINITY_CODE ==> #[trigger] rounds_below(
                    n,
                    natural(den@),
                    high as nat,
                ),
            forall|n: nat|
                natural(twice@) == 2 * n && low > 0 ==> !#[trigger] rounds_below(
                    n,
                    natural(den@),
                    (low - 1) as nat,
                ),
        decreases high - low,
    {
        let mid: u64 = low + (high - low) / 2;
        proof {
            lemma_code_split(mid as nat);
        }
        let exponent: u32 = if mid < FRACTION {
            0
        } else {
            (mid / FRACTION - 1) as u32
        };
        let significand: u64 = mid - exponent as u64 * FRACTION;
        let scaled = scale(den, 2 * significand + 1, 0);
        let midpoint = shift(&scaled, exponent);
        proof {
            let d = natural(den@);
            let t = (2 * significand + 1) as nat;
            let p = pow2(exponent as nat);
            assert((d * t) * p == d * (t * p)) by (nonlinear_arith);
            assert(natural(midpoint@) == d * (magnitude(mid as nat) + magnitude(mid as nat + 1)));
        }
        let below = match compare(twice, &midpoint) {
            Comparison::Below => true,
            Comparison::Same => mid % 2 == 0,
            Comparison::Above => false,
        };
        if below {
            high = mid;
        } else {
            low = mid + 1;
        }
    }
    low
}

/// A number of at least `10^342` rounds to infinity.
proof fn lemma_huge(digits: nat, exponent: nat)
    requires
        digits > 0,
        exponent >= 342,
    ensures
        decimal_code(digits, exponent as int) == INFINITY_CODE,
{
    let n = digits * ten_to(exponent) * pow2(1074);
    lemma_ten_to(exponent, 0);
    lemma_ten_to(342, (exponent - 342) as nat);
    lemma_ten_to((exponent - 342) as nat, 0);
    let t = ten_to(exponent);
    let p = pow2(1074);
    vstd::arithmetic::power2::lemma_pow2_pos(1074);
    assert(t >= ten_to(342)) by (nonlinear_arith)
        requires
            t == ten_to(342) * ten_to((exponent - 342) as nat),
            ten_to((exponent - 342) as nat) > 0,
    ;
    assert(3nat * 342 == 1026);
    assert(n >= t * p) by (nonlinear_arith)
        requires
            n == digits * t * p,
            digits > 0,
    ;
    assert(t * p >= pow2(1026) * p) by (nonlinear_arith)
        requires
            t >= pow2(1026),
    ;
    vstd::arithmetic::power2::lemma_pow2_adds(1026, 1074);
    vstd::arithmetic::power2::lemma2_to64();
    vstd::arithmetic::power2::lemma2_to64_rest();
    lemma_magnitude_split(2046, FRACTION as nat);
    assert(2046 * FRACTION + FRACTION == INFINITY_CODE);
    vstd::arithmetic::power2::lemma_pow2_adds(52, 2046);
    vstd::arithmetic::power2::lemma_pow2_strictly_increases(2098, 2100);
    let last = (INFINITY_CODE - 1) as nat;
    crate::rounding::lemma_magnitude_increases(last, INFINITY_CODE as nat);
    assert(1 * (magnitude(last) + magnitude(last + 1)) < 2 * n);
    assert(nearest(n, 1, INFINITY_CODE as nat));
    lemma_round_code(n, 1, INFINITY_CODE as nat);
}

/// A number below `10^-400` rounds to zero.
proof fn lemma_tiny(digits: nat, len: nat, places: nat)
    requires
        digits < ten_to(len),
        places >= len + 400,
    ensures
        decimal_code(digits, -(places as int)) == 0,
{
    let n = digits * pow2(1074);
    let d = ten_to(places);
    lemma_ten_to(len, (places - len) as nat);
    lemma_ten_to((places - len) as nat, 0);
    let a = ten_to(len);
    let b = ten_to((places - len) as nat);
    vstd::arithmetic::power2::lemma_pow2_adds(1, 1074);
    vstd::arithmetic::power2::lemma2_to64();
    vstd::arithmetic::power2::lemma_pow2_strictly_increases(1075, (3 * (places - len)) as nat);
    assert(2 * n < d) by (nonlinear_arith)
        requires
            n == digits * pow2(1074),
            2 * pow2(1074) == pow2(1075),
            pow2(1075) < b,
            digits < a,
            d == a * b,
            a > 0,
    ;
    assert(d * (magnitude(0) + magnitude(1)) == d) by (nonlinear_arith)
        requires
            magnitude(0) + magnitude(1) == 1,
    ;
    assert(nearest(n, d, 0));
    lemma_round_code(n, d, 0);
}

proof fn lemma_zero(exponent: int)
    ensures
        decimal_code(0, exponent) == 0,
{
    let e = if exponent >= 0 {
        exponent as nat
    } else {
        0
    };
    let f = if exponent >= 0 {
        0
    } else {
        (-exponent) as nat
    };
    let d = ten_to(f);
    lemma_ten_to(f, 0);
    lemma_exact_is_nearest(d, 0);
    assert(d * magnitude(0) == 0) by (nonlinear_arith)
        requires
            magnitude(0) == 0,
    ;
    assert(0 * ten_to(e) * pow2(1074) == 0) by (nonlinear_arith);
    assert(0 * pow2(1074) == 0) by (nonlinear_arith);
}

/// The code nearest to `digits * 10^exponent`.
fn round_decimal(digits: &Vec<char>, exponent: i128) -> (code: u64)
    requires
        all_digits(digits@),
        -0x7000_0000_0000_0000_0000_0000_0000_0000 <= exponent
            <= 0x7000_0000_0000_0000_0000_0000_0000_0000,
    ensures
        code <= INFINITY_CODE,
        code == decimal_code(digits_value(digits@), exponent as int),
{
    let ghost value = digits_value(digits@);
    let small = small_value(digits);
    if let Some(v) = small {
        if v == 0 {
            proof {
                lemma_zero(exponent as int);
            }
            return 0;
        }
        if -19 <= exponent && exponent <= 0 {
            let mut den: u64 = 1;
            let mut i: i128 = 0;
            while i < -exponent
                invariant
                    0 <= i <= -exponent <= 19,
                    den == ten_to(i as nat),
                    1 <= den,
                    i < 19 ==> den <= 0x0de0_b6b3_a764_0000,
                decreases -exponent - i,
            {
                proof {
                    lemma_ten_powers();
                    assert(ten_to((i + 1) as nat) == 10 * ten_to(i as nat));
                    if i + 1 < 18 {
                        lemma_ten_to((i + 1) as nat, (18 - (i + 1)) as nat);
                        lemma_ten_to((18 - (i + 1)) as nat, 0);
                        let x = ten_to((i + 1) as nat);
                        let y = ten_to((18 - (i + 1)) as nat);
                        assert(x <= x * y) by (nonlinear_arith)
                            requires
                                y > 0,
                        ;
                    }
                }
                den = den * 10;
                i = i + 1;
            }
            let code = round_quotient(v, den, 1074);
            proof {
                vstd::arithmetic::power2::lemma2_to64();
                let n = v as nat * pow2(1074);
                assert(den as nat * 1 == den as nat);
                assert(scale_up(1074) == pow2(1074));
                assert(scale_down(1074) == 1);
                lemma_round_code(n, den as nat, code as nat);
                if exponent == 0 {
                    assert(value * 1 * pow2(1074) == value * pow2(1074)) by (nonlinear_arith);
                }
            }
            return code;
        }
    }
    let big = large_value(digits);
    let empty: Vec<u32> = Vec::new();
    if let Comparison::Same = compare(&big, &empty) {
        proof {
            lemma_zero(exponent as int);
        }
        return 0;
    }
    if exponent >= 342 {
        proof {
            lemma_huge(value, exponent as nat);
        }
        return INFINITY_CODE;
    }
    if exponent <= -400 - (digits.len() as i128) {
        proof {
            lemma_digits_bound(digits@);
            lemma_tiny(value, digits@.len(), (-exponent) as nat);
        }
        return 0;
    }
    let one = scale(&empty, 1, 1);
    if exponent >= 0 {
        let scaled = scale_by_tens(&big, exponent as u128);
        let twice = shift(&scaled, 1075);
        let code = bisect(&twice, &one);
        proof {
            vstd::arithmetic::power2::lemma2_to64();
            vstd::arithmetic::power2::lemma_pow2_adds(1, 1074);
            let t = ten_to(exponent as nat);
            let p = pow2(1074);
            let n = value * t * p;
            assert((value * t) * (2 * p) == 2 * n) by (nonlinear_arith)
                requires
                    n == value * t * p,
            ;
            assert(natural(one@) == 1);
            assert(nearest(n, 1, code as nat));
            lemma_round_code(n, 1, code as nat);
        }
        code
    } else {
        let den = scale_by_tens(&one, (-exponent) as u128);
        let twice = shift(&big, 1075);
        proof {
            let d = ten_to((-exponent) as nat);
            lemma_ten_to((-exponent) as nat, 0);
            assert(natural(one@) == 1);
            assert(1 * d == d);
        }
        let code = bisect(&twice, &den);
        proof {
            vstd::arithmetic::power2::lemma2_to64();
            vstd::arithmetic::power2::lemma_pow2_adds(1, 1074);
            let p = pow2(1074);
            let n = value * p;
            assert(value * (2 * p) == 2 * n) by (nonlinear_arith)
                requires
                    n == value * p,
            ;
            let d = ten_to((-exponent) as nat);
            assert(nearest(n, d, code as nat));
            lemma_round_code(n, d, code as nat);
        }
        code
    }
}

proof fn lemma_ten_powers()
    ensures
        ten_to(18) == 0x0de0_b6b3_a764_0000,
{
    reveal_with_fuel(ten_to, 19);
}

/// Whether the characters from `from` on spell `word`, in any case.
fn spelled(chars: &Vec<char>, from: usize, word: &Vec<char>) -> (b: bool)
    requires
        from <= chars@.len(),
    ensures
        b == spells(chars@.skip(from as int), word@),
{
    let ghost s = chars@.skip(from as int);
    if chars.len() - from != word.len() {
        return false;
    }
    let mut i: usize = 0;
    while i < word.len()
        invariant
            from <= chars@.len(),
            s == chars@.skip(from as int),
            s.len() == word@.len(),
            from + word.len() == chars.len(),
            i <= word.len(),
            forall|j: int| 0 <= j < i ==> ascii_lower(#[trigger] s[j]) == word@[j],
        decreases word.len() - i,
    {
        let c = chars[from + i];
        let w = word[i];
        assert(s[i as int] == c);
        let lower = if 'A' <= c && c <= 'Z' {
            (c as u8 + 32) as char
        } else {
            c
        };
        if lower != w {
            return false;
        }
        i = i + 1;
    }
    true
}

fn append_range(out: &mut Vec<char>, chars: &Vec<char>, from: usize, to: usize)
    requires
        from <= to <= chars@.len(),
    ensures
        final(out)@ == old(out)@ + chars@.subrange(from as int, to as int),
{
    let mut i: usize = from;
    let ghost before = out@;
    assert(out@ =~= before + chars@.subrange(from as int, from as int));
    while i < to
        invariant
            from <= i <= to <= chars@.len(),
            out@ == before + chars@.subrange(from as int, i as int),
        decreases to - i,
    {
        out.push(chars[i]);
        assert(chars@.subrange(from as int, i + 1) =~= chars@.subrange(
            from as int,
            i as int,
        ).push(chars@[i as int]));
        i = i + 1;
        assert(out@ =~= before + chars@.subrange(from as int, i as int));
    }
}

/// Past this bound an exponent outweighs any run of digits.
const EXPONENT_CAP: u128 = 0x1000_0000_0000_0000_0000_0000_0000_0000;

spec fn cut_off(x: int) -> int {
    if x > EXPONENT_CAP {
        EXPONENT_CAP as int
    } else if x < -(EXPONENT_CAP as int) {
        -(EXPONENT_CAP as int)
    } else {
        x
    }
}

/// The exponent that the characters from `from` on denote, cut off at `EXPONENT_CAP`.
fn parse_exponent(chars: &Vec<char>, from: usize) -> (r: Option<i128>)
    requires
        from <= chars@.len(),
    ensures
        match exponent_value(chars@.skip(from as int)) {
            Some(y) => r matches Some(x) && x == cut_off(y),
            None => r is None,
        },
{
    let n = chars.len();
    let ghost s = chars@.skip(from as int);
    let signed = from < n && (chars[from] == '-' || chars[from] == '+');
    let negative = from < n && chars[from] == '-';
    let start: usize = if signed {
        from + 1
    } else {
        from
    };
    proof {
        if from < n {
            assert(s[0] == chars@[from as int]);
        }
        assert(unsigned(s) =~= chars@.skip(start as int));
        assert(chars@.subrange(start as int, n as int) =~= chars@.skip(start as int));
    }
    if start == n || !digits_only(chars, start, n) {
        return None;
    }
    let v = capped_value(chars, start, EXPONENT_CAP);
    if negative {
        Some(-(v as i128))
    } else {
        Some(v as i128)
    }
}

/// The code of the unsigned number that the characters from `start` on denote.
#[verifier::spinoff_prover]
#[verifier::rlimit(40)]
fn parse_number(chars: &Vec<char>, start: usize) -> (r: Option<u64>)
    requires
        start <= chars@.len(),
    ensures
        match number_parts(chars@.skip(start as int)) {
            Some((digits, exponent)) => r matches Some(code) && code <= INFINITY_CODE && code
                == decimal_code(digits_value(digits), exponent),
            None => r is None,
        },
{
    let n = chars.len();
    let ghost rest = chars@.skip(start as int);
    let e = find_first(chars, start, n, 'e', 'E');
    let point = find_first(chars, start, e, '.', '.');
    let ghost es = first_of(rest, 'e', 'E');
    let ghost mantissa = rest.take(es as int);
    let ghost ps = first_of(mantissa, '.', '.');
    let ghost fraction = if ps < mantissa.len() {
        mantissa.skip((ps + 1) as int)
    } else {
        Seq::empty()
    };
    proof {
        assert(chars@.subrange(start as int, n as int) =~= rest);
        assert(chars@.subrange(start as int, e as int) =~= mantissa);
        assert(chars@.subrange(start as int, point as int) =~= mantissa.take(ps as int));
    }
    let mut digits: Vec<char> = Vec::new();
    append_range(&mut digits, chars, start, point);
    let mut places: usize = 0;
    if point < e {
        append_range(&mut digits, chars, point + 1, e);
        places = e - (point + 1);
        assert(chars@.subrange(point + 1, e as int) =~= fraction);
    }
    proof {
        assert(digits@ =~= mantissa.take(ps as int) + fraction);
        assert(places == fraction.len());
        assert(digits@.subrange(0, digits@.len() as int) =~= digits@);
    }
    if digits.len() == 0 || !digits_only(&digits, 0, digits.len()) {
        return None;
    }
    if e == n {
        return Some(round_decimal(&digits, -(places as i128)));
    }
    assert(chars@.skip(e + 1) =~= rest.skip((es + 1) as int));
    match parse_exponent(chars, e + 1) {
        None => None,
        Some(x) => {
            let code = round_decimal(&digits, x - places as i128);
            proof {
                let y = exponent_value(rest.skip((es + 1) as int))->0;
                lemma_cut_off(digits@, y, places as nat);
            }
            Some(code)
        },
    }
}

/// Cutting an exponent off does not change what the number rounds to.
proof fn lemma_cut_off(digits: Seq<char>, y: int, places: nat)
    requires
        all_digits(digits),
        digits.len() <= usize::MAX,
        places <= usize::MAX,
    ensures
        decimal_code(digits_value(digits), cut_off(y) - places) == decimal_code(
            digits_value(digits),
            y - places,
        ),
{
    let value = digits_value(digits);
    let x = cut_off(y);
    lemma_digits_bound(digits);
    if value == 0 {
        lemma_zero(x - places);
        lemma_zero(y - places);
    } else if x < y {
        lemma_huge(value, (x - places) as nat);
        lemma_huge(value, (y - places) as nat);
    } else if x > y {
        lemma_tiny(value, digits.len(), (places - x) as nat);
        lemma_tiny(value, digits.len(), (places - y) as nat);
    }
}

/// Reads a number; `None` when the text is not one.
pub fn parse(text: &str) -> (r: Option<Binary64>)
    ensures
        r == parsed(text@),
{
    let chars = char_vec(text);
    let n = chars.len();
    let negative = n > 0 && chars[0] == '-';
    let start: usize = if n > 0 && (chars[0] == '-' || chars[0] == '+') {
        1
    } else {
        0
    };
    proof {
        assert(unsigned(text@) =~= chars@.skip(start as int));
    }
    let inf: Vec<char> = vec!['i', 'n', 'f'];
    let infinity: Vec<char> = vec!['i', 'n', 'f', 'i', 'n', 'i', 't', 'y'];
    let nan: Vec<char> = vec!['n', 'a', 'n'];
    proof {
        assert(inf@ =~= seq!['i', 'n', 'f']);
        assert(infinity@ =~= seq!['i', 'n', 'f', 'i', 'n', 'i', 't', 'y']);
        assert(nan@ =~= seq!['n', 'a', 'n']);
    }
    if spelled(&chars, start, &inf) || spelled(&chars, start, &infinity) {
        return Some(signed_code(negative, INFINITY_CODE));
    }
    if spelled(&chars, start, &nan) {
        return Some(signed_code(negative, NAN_CODE));
    }
    match parse_number(&chars, start) {
        Some(code) => Some(signed_code(negative, code)),
        None => None,
    }
}

fn signed_code(negative: bool, code: u64) -> (x: Binary64)
    requires
        code < crate::binary64::SIGN,
    ensures
        x == Binary64::of(negative, code as nat),
{
    if negative {
        Binary64::from_bits(crate::binary64::SIGN + code)
    } else {
        Binary64::from_bits(code)
    }
}

} // verus!
