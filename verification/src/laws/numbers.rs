//! Laws of the numbers.

use crate::binary64::Binary64;
use crate::rounding::{
    lemma_exact_is_nearest, lemma_magnitude_increases, lemma_magnitude_split, lemma_nearest_unique,
    lemma_rounds_below_monotone, magnitude, nearest, round_code, rounds_below, FRACTION,
    INFINITY_CODE,
};
use vstd::arithmetic::power2::{lemma_pow2_adds, pow2};
use vstd::prelude::*;

verus! {

/// The distance between `n / d` and the magnitude of a code, times `d`.
pub open spec fn distance(n: nat, d: nat, code: nat) -> int {
    let off = n - d * magnitude(code);
    if off < 0 {
        -off
    } else {
        off
    }
}

/// Finite numbers are ordered by their exact values.
pub proof fn law_order_is_by_value(a: Binary64, b: Binary64)
    requires
        a.code() < INFINITY_CODE,
        b.code() < INFINITY_CODE,
    ensures
        a.below(b) <==> a.units() < b.units(),
        a.at_most(b) <==> a.units() <= b.units(),
        a.same(b) <==> a.units() == b.units(),
{
    if a.code() < b.code() {
        lemma_magnitude_increases(a.code(), b.code());
    }
    if b.code() < a.code() {
        lemma_magnitude_increases(b.code(), a.code());
    }
    if a.code() > 0 {
        lemma_magnitude_increases(0, a.code());
    }
    if b.code() > 0 {
        lemma_magnitude_increases(0, b.code());
    }
}

/// Keys order numbers by value and put NaN above all else; only the two zeros, and
/// the NaNs, share one.
pub proof fn law_order_keys(a: Binary64, b: Binary64)
    ensures
        !a.is_nan() && !b.is_nan() ==> (a.order_key() <= b.order_key() <==> a.at_most(b)),
        !a.is_nan() && b.is_nan() ==> a.order_key() < b.order_key(),
        a.order_key() == b.order_key() <==> a.same(b) || (a.is_nan() && b.is_nan()),
        a.same(b) ==> a == b || (a.is_zero() && b.is_zero()),
{
}

/// Every fraction has a code that is nearest to it, and only one.
pub proof fn law_rounding_is_total(n: nat, d: nat)
    requires
        d > 0,
    ensures
        nearest(n, d, round_code(n, d)),
        forall|code: nat| nearest(n, d, code) ==> code == round_code(n, d),
{
    lemma_first_above(n, d, INFINITY_CODE as nat);
    let found = choose|code: nat| nearest(n, d, code);
    assert forall|code: nat| nearest(n, d, code) implies code == round_code(n, d) by {
        lemma_nearest_unique(n, d, code, found);
    }
}

/// Below a code at which a fraction rounds down, or at infinity, some code is nearest.
proof fn lemma_first_above(n: nat, d: nat, code: nat)
    requires
        d > 0,
        code <= INFINITY_CODE,
        code < INFINITY_CODE ==> rounds_below(n, d, code),
    ensures
        exists|c: nat| nearest(n, d, c),
    decreases code,
{
    if code == 0 || !rounds_below(n, d, (code - 1) as nat) {
        assert(nearest(n, d, code));
    } else {
        lemma_first_above(n, d, (code - 1) as nat);
    }
}

/// No number is nearer to a fraction than the one that it rounds to, if that is finite.
pub proof fn law_rounding_is_nearest(n: nat, d: nat, other: nat)
    requires
        d > 0,
        round_code(n, d) < INFINITY_CODE,
    ensures
        distance(n, d, round_code(n, d)) <= distance(n, d, other),
{
    law_rounding_is_total(n, d);
    let code = round_code(n, d);
    let m = magnitude(code);
    let o = magnitude(other);
    if code < other {
        lemma_magnitude_increases(code, other);
        let next = magnitude(code + 1);
        if code + 1 < other {
            lemma_magnitude_increases(code + 1, other);
        }
        assert(d * (m + next) <= d * m + d * o && d * m <= d * o) by (nonlinear_arith)
            requires
                m <= o,
                next <= o,
        ;
    } else if other < code {
        lemma_magnitude_increases(other, code);
        let previous = magnitude((code - 1) as nat);
        if other < code - 1 {
            lemma_magnitude_increases(other, (code - 1) as nat);
        }
        assert(d * (previous + m) >= d * o + d * m && d * o <= d * m) by (nonlinear_arith)
            requires
                o <= previous,
                o <= m,
        ;
    }
}

/// A larger fraction does not round to a smaller number.
pub proof fn law_rounding_is_monotone(n1: nat, d1: nat, n2: nat, d2: nat)
    requires
        d1 > 0,
        d2 > 0,
        n1 * d2 <= n2 * d1,
    ensures
        round_code(n1, d1) <= round_code(n2, d2),
{
    law_rounding_is_total(n1, d1);
    law_rounding_is_total(n2, d2);
    let a = round_code(n1, d1);
    let b = round_code(n2, d2);
    if b < a {
        if b < a - 1 {
            lemma_rounds_below_monotone(n2, d2, b, (a - 1) as nat);
        }
        let c = (a - 1) as nat;
        let m = magnitude(c) + magnitude(a);
        lemma_cross(n1, d1, n2, d2, m);
    }
}

/// Comparing two fractions with the same bound.
proof fn lemma_cross(n1: nat, d1: nat, n2: nat, d2: nat, m: nat)
    by (nonlinear_arith)
    requires
        d1 > 0,
        d2 > 0,
        n1 * d2 <= n2 * d1,
    ensures
        2 * n2 < d2 * m ==> 2 * n1 < d1 * m,
        2 * n2 == d2 * m ==> 2 * n1 <= d1 * m,
{
    if 2 * n2 < d2 * m {
        assert(2 * n1 * d2 <= 2 * n2 * d1);
        assert(2 * n2 * d1 < d2 * m * d1);
        assert(2 * n1 * d2 < d1 * m * d2);
    }
    if 2 * n2 == d2 * m {
        assert(2 * n1 * d2 <= 2 * n2 * d1);
        assert(2 * n2 * d1 == d1 * m * d2);
    }
}

/// The code of `2^k`.
pub open spec fn power_code(k: int) -> nat {
    ((k + 1023) * FRACTION) as nat
}

pub proof fn lemma_power_code(k: int)
    requires
        -1022 <= k <= 1023,
    ensures
        magnitude(power_code(k)) == pow2((1074 + k) as nat),
        power_code(k) < INFINITY_CODE,
        power_code(k) > 0,
{
    let q = (k + 1022) as nat;
    lemma_magnitude_split(q, FRACTION as nat);
    assert(q * FRACTION + FRACTION == (k + 1023) * FRACTION) by (nonlinear_arith)
        requires
            q == k + 1022,
    ;
    assert(FRACTION == pow2(52)) by {
        vstd::arithmetic::power2::lemma2_to64();
        lemma_pow2_adds(32, 20);
    }
    lemma_pow2_adds(52, q);
}

/// A number between two powers of two rounds to a code between theirs.
pub proof fn lemma_between_powers(n: nat, d: nat, low: int, high: int)
    requires
        d > 0,
        -1022 <= low <= high <= 1023,
        d * pow2((1074 + low) as nat) <= n <= d * pow2((1074 + high) as nat),
    ensures
        power_code(low) <= round_code(n, d) <= power_code(high),
{
    lemma_power_code(low);
    lemma_power_code(high);
    let a = power_code(low);
    let b = power_code(high);
    lemma_exact_is_nearest(d, a);
    lemma_exact_is_nearest(d, b);
    assert(d * magnitude(a) * d <= n * d && n * d <= d * magnitude(b) * d) by (nonlinear_arith)
        requires
            d * magnitude(a) <= n <= d * magnitude(b),
    ;
    law_rounding_is_monotone(d * magnitude(a), d, n, d);
    law_rounding_is_monotone(n, d, d * magnitude(b), d);
}

pub proof fn lemma_of_code(code: nat)
    requires
        code < INFINITY_CODE,
    ensures
        Binary64::of(false, code).code() == code,
        !Binary64::of(false, code).negative(),
{
}

/// The number nearest to a positive 64-bit count lies between 1 and `2^64`.
pub proof fn law_counts_are_in_range(value: u64)
    requires
        value > 0,
    ensures
        power_code(0) <= Binary64::integer(value as nat).code() <= power_code(64),
        !Binary64::integer(value as nat).negative(),
        pow2(1074) <= magnitude(Binary64::integer(value as nat).code()) <= pow2(1138),
{
    let p = pow2(1074);
    lemma_pow2_adds(1074, 64);
    vstd::arithmetic::power2::lemma2_to64();
    assert(p <= value as nat * p <= pow2(64) * p) by (nonlinear_arith)
        requires
            1 <= value <= pow2(64),
    ;
    assert(p * pow2(64) == pow2(64) * p) by (nonlinear_arith);
    lemma_between_powers(value as nat * p, 1, 0, 64);
    lemma_power_code(0);
    lemma_power_code(64);
    let code = round_code(value as nat * p, 1);
    lemma_of_code(code);
    if power_code(0) < code {
        lemma_magnitude_increases(power_code(0), code);
    }
    if code < power_code(64) {
        lemma_magnitude_increases(code, power_code(64));
    }
}

/// Adding a positive number to one that is not negative does not make it smaller.
pub proof fn law_sums_grow(a: Binary64, b: Binary64)
    requires
        !a.negative(),
        !a.is_nan(),
        b.positive(),
    ensures
        a.at_most(a.sum(b)),
        !a.sum(b).negative(),
        !a.sum(b).is_nan(),
{
    if !a.is_infinite() && !b.is_infinite() {
        lemma_magnitude_increases(0, b.code());
        let total = (a.units() + b.units()) as nat;
        let m = magnitude(a.code());
        lemma_exact_is_nearest(1, a.code());
        assert(1 * m == m);
        law_rounding_is_monotone(m, 1, total, 1);
        law_rounding_is_total(total, 1);
    }
}

} // verus!
