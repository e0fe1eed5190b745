//! Laws of arithmetic: every result is the number nearest to the exact one.

use crate::binary64::Binary64;
use crate::laws::numbers::{distance, law_rounding_is_nearest, law_rounding_is_total};
use crate::rounding::{
    lemma_magnitude_increases, lemma_magnitude_split, magnitude, round_code, rounds_below,
};
use vstd::arithmetic::power2::{lemma_pow2_pos, pow2};
use vstd::prelude::*;

verus! {

/// Neither infinite nor NaN.
pub open spec fn is_finite(x: Binary64) -> bool {
    x.bits % 0x8000_0000_0000_0000 < 0x7ff0_0000_0000_0000
}

pub open spec fn abs(x: int) -> int {
    if x < 0 {
        -x
    } else {
        x
    }
}

/// `x` is the number nearest to `n / d` units: no finite number is nearer, of two that
/// are equally near it is the even one, and it is infinite only past the largest finite
/// number by half a step or more.
pub open spec fn is_nearest(x: Binary64, n: int, d: int) -> bool {
    &&& is_finite(x) ==> forall|c: Binary64|
        #![trigger c.units()]
        is_finite(c) ==> {
            &&& abs(d * x.units() - n) <= abs(d * c.units() - n)
            &&& abs(d * x.units() - n) == abs(d * c.units() - n) ==> c.units() == x.units()
                || x.bits % 2 == 0
        }
    &&& !is_finite(x) ==> {
        &&& x.bits % 0x8000_0000_0000_0000 == 0x7ff0_0000_0000_0000
        &&& 2 * abs(n) >= abs(d) * (magnitude(0x7fef_ffff_ffff_ffff) + magnitude(
            0x7ff0_0000_0000_0000,
        ))
    }
    &&& n != 0 ==> (x.bits >= 0x8000_0000_0000_0000 <==> (n < 0) != (d < 0))
}

/// The encoding: a sign bit, eleven bits of exponent and 52 of fraction.  The magnitude of
/// a finite number is its significand times a power of two, in units of `2^-1074`.
pub proof fn law_encoding(exponent: nat, fraction: nat)
    requires
        fraction < 0x10_0000_0000_0000,
    ensures
        magnitude(fraction) == fraction,
        exponent >= 1 ==> magnitude(exponent * 0x10_0000_0000_0000 + fraction) == (
        0x10_0000_0000_0000 + fraction) * pow2((exponent - 1) as nat),
{
    if exponent >= 1 {
        let q = (exponent - 1) as nat;
        lemma_magnitude_split(q, 0x10_0000_0000_0000 + fraction);
        assert(q * 0x10_0000_0000_0000 + (0x10_0000_0000_0000 + fraction) == exponent
            * 0x10_0000_0000_0000 + fraction) by (nonlinear_arith)
            requires
                q == exponent - 1,
        ;
    }
}

/// The classes of numbers and their exact values, by their encodings.
pub proof fn law_classes(x: Binary64)
    ensures
        x.is_zero() <==> x.bits == 0 || x.bits == 0x8000_0000_0000_0000,
        x.is_infinite() <==> x.bits == 0x7ff0_0000_0000_0000 || x.bits == 0xfff0_0000_0000_0000,
        x.is_nan() <==> !is_finite(x) && !x.is_infinite(),
        x.bits < 0x8000_0000_0000_0000 ==> x.units() == magnitude(x.bits as nat),
        x.bits >= 0x8000_0000_0000_0000 ==> x.units() == -magnitude(
            (x.bits - 0x8000_0000_0000_0000) as nat,
        ),
        x.positive() <==> Binary64::of(false, 0).below(x),
        Binary64::of(false, 0).bits == 0,
{
}

/// Infinities lie beyond all finite numbers, and nothing is ordered with NaN.
pub proof fn law_order_of_special_numbers(a: Binary64, b: Binary64)
    ensures
        a.is_nan() || b.is_nan() ==> !a.below(b) && !a.at_most(b) && !a.same(b),
        a.bits == 0x7ff0_0000_0000_0000 && !b.is_nan() ==> b.at_most(a) && (a.at_most(b) <==> b.bits
            == a.bits),
        a.bits == 0xfff0_0000_0000_0000 && !b.is_nan() ==> a.at_most(b) && (b.at_most(a) <==> b.bits
            == a.bits),
        !a.is_nan() && !b.is_nan() ==> (a.below(b) <==> !b.at_most(a)),
        a.same(b) <==> a.at_most(b) && b.at_most(a),
{
}

/// Numbers compare equal when neither is above the other; NaN equals nothing.
pub proof fn law_equality(a: Binary64, b: Binary64)
    ensures
        vstd::std_specs::cmp::PartialEqSpec::eq_spec(&a, &b) <==> a.at_most(b) && b.at_most(a),
{
}

/// Changing the sign, and dropping it.
pub proof fn law_signs(x: Binary64)
    ensures
        x.negation().units() == -x.units(),
        x.negation().negation() == x,
        (x.negation().bits < 0x8000_0000_0000_0000) != (x.bits < 0x8000_0000_0000_0000),
        x.negation().is_nan() == x.is_nan(),
        x.magnitude_of().units() == abs(x.units()),
        x.magnitude_of().bits < 0x8000_0000_0000_0000,
        x.magnitude_of() == x || x.magnitude_of() == x.negation(),
{
}

/// The sum of finite numbers is the number nearest to the exact sum.
pub proof fn law_sum(a: Binary64, b: Binary64)
    requires
        is_finite(a),
        is_finite(b),
    ensures
        is_nearest(a.sum(b), a.units() + b.units(), 1),
        a.units() + b.units() == 0 ==> a.sum(b).bits == if a.bits >= 0x8000_0000_0000_0000 && b.bits
            >= 0x8000_0000_0000_0000 {
            0x8000_0000_0000_0000u64
        } else {
            0u64
        },
        a.difference(b) == a.sum(b.negation()),
        a.sum(b) == b.sum(a),
{
    let total = a.units() + b.units();
    if total == 0 {
        let x = a.sum(b);
        assert(x.units() == 0);
        assert forall|c: Binary64| #![trigger c.units()] is_finite(c) implies abs(
            1 * x.units() - total,
        ) <= abs(1 * c.units() - total) by {}
    } else {
        lemma_rounded(total < 0, abs(total) as nat, 1);
    }
}

/// The product of finite numbers is the number nearest to the exact product.
pub proof fn law_product(a: Binary64, b: Binary64)
    requires
        is_finite(a),
        is_finite(b),
    ensures
        is_nearest(a.product(b), a.units() * b.units(), pow2(1074) as int),
        (a.product(b).bits >= 0x8000_0000_0000_0000) == ((a.bits >= 0x8000_0000_0000_0000) != (
        b.bits >= 0x8000_0000_0000_0000)),
{
    let negative = a.negative() != b.negative();
    let ma = magnitude(a.code());
    let mb = magnitude(b.code());
    lemma_pow2_pos(1074);
    lemma_rounded(negative, ma * mb, pow2(1074));
    let n = a.units() * b.units();
    assert(n == if negative {
        -(ma * mb)
    } else {
        ma * mb as int
    }) by (nonlinear_arith)
        requires
            n == a.units() * b.units(),
            a.units() == if a.negative() {
                -ma
            } else {
                ma as int
            },
            b.units() == if b.negative() {
                -mb
            } else {
                mb as int
            },
            negative == (a.negative() != b.negative()),
    ;
}

/// The quotient of finite numbers is the number nearest to the exact quotient.
pub proof fn law_quotient(a: Binary64, b: Binary64)
    requires
        is_finite(a),
        is_finite(b),
        !b.is_zero(),
    ensures
        is_nearest(a.quotient(b), a.units() * pow2(1074), b.units()),
        (a.quotient(b).bits >= 0x8000_0000_0000_0000) == ((a.bits >= 0x8000_0000_0000_0000) != (
        b.bits >= 0x8000_0000_0000_0000)),
{
    let negative = a.negative() != b.negative();
    let ma = magnitude(a.code());
    let mb = magnitude(b.code());
    let p = pow2(1074);
    lemma_pow2_pos(1074);
    lemma_magnitude_increases(0, b.code());
    let n = ma * p;
    let x = a.quotient(b);
    lemma_rounded(negative, n, mb);
    let ua = a.units();
    let ub = b.units();
    assert(ua * p == if a.negative() {
        -n
    } else {
        n as int
    }) by (nonlinear_arith)
        requires
            n == ma * p,
            ua == if a.negative() {
                -ma
            } else {
                ma as int
            },
    ;
    if is_finite(x) {
        assert forall|c: Binary64| #![trigger c.units()] is_finite(c) implies {
            &&& abs(ub * x.units() - ua * p) <= abs(ub * c.units() - ua * p)
            &&& abs(ub * x.units() - ua * p) == abs(ub * c.units() - ua * p) ==> c.units()
                == x.units() || x.bits % 2 == 0
        } by {
            lemma_flip(mb as int, ub, x.units(), ua * p);
            lemma_flip(mb as int, ub, c.units(), ua * p);
        }
    }
    if ua * p != 0 {
        assert(n > 0);
    }
}

/// Turning the sign of both factors round.
proof fn lemma_flip(m: int, u: int, x: int, n: int)
    requires
        u == m || u == -m,
    ensures
        u == m ==> abs(u * x - n) == abs(m * x - n),
        u == -m ==> abs(u * x - n) == abs(m * x + n),
{
    assert((-m) * x == -(m * x)) by (nonlinear_arith);
}

/// The number made of a count is the one nearest to it.
pub proof fn law_counts(value: nat)
    ensures
        is_nearest(Binary64::integer(value), (value * pow2(1074)) as int, 1),
        Binary64::integer(value).bits < 0x8000_0000_0000_0000,
{
    lemma_rounded(false, value * pow2(1074), 1);
}

/// Infinities and NaN in arithmetic.
pub proof fn law_special_operands(a: Binary64, b: Binary64)
    ensures
        a.is_nan() || b.is_nan() ==> a.sum(b).is_nan() && a.product(b).is_nan() && a.quotient(
            b,
        ).is_nan(),
        a.is_infinite() && is_finite(b) ==> a.sum(b) == a && b.sum(a) == a,
        a.is_infinite() && b == a ==> a.sum(b) == a,
        a.is_infinite() && b == a.negation() ==> a.sum(b).is_nan(),
        a.is_infinite() && !b.is_nan() && !b.is_zero() ==> a.product(b).is_infinite() && b.product(
            a,
        ).is_infinite() && (a.product(b).bits >= 0x8000_0000_0000_0000) == ((a.bits
            >= 0x8000_0000_0000_0000) != (b.bits >= 0x8000_0000_0000_0000)) && a.product(b)
            == b.product(a),
        a.is_infinite() && b.is_zero() ==> a.product(b).is_nan() && b.product(a).is_nan(),
        a.is_infinite() && b.is_infinite() ==> a.quotient(b).is_nan(),
        a.is_zero() && b.is_zero() ==> a.quotient(b).is_nan(),
        a.is_infinite() && is_finite(b) ==> a.quotient(b).is_infinite() && b.quotient(a).is_zero()
            && (a.quotient(b).bits >= 0x8000_0000_0000_0000) == ((a.bits >= 0x8000_0000_0000_0000)
            != (b.bits >= 0x8000_0000_0000_0000)),
        is_finite(a) && !a.is_zero() && b.is_zero() ==> a.quotient(b).is_infinite() && (a.quotient(
            b,
        ).bits >= 0x8000_0000_0000_0000) == ((a.bits >= 0x8000_0000_0000_0000) != (b.bits
            >= 0x8000_0000_0000_0000)),
{
}

/// A rounded fraction is the number nearest to it.
proof fn lemma_rounded(negative: bool, n: nat, d: nat)
    requires
        d > 0,
    ensures
        ({
            let x = Binary64::rounded(negative, n, d);
            &&& is_nearest(
                x,
                if negative {
                    -n
                } else {
                    n as int
                },
                d as int,
            )
            &&& (x.bits >= 0x8000_0000_0000_0000) == negative
        }),
{
    let code = round_code(n, d);
    let x = Binary64::rounded(negative, n, d);
    law_rounding_is_total(n, d);
    let m = magnitude(code);
    let target = if negative {
        -n
    } else {
        n as int
    };
    assert(x.code() == code);
    if is_finite(x) {
        assert forall|c: Binary64| #![trigger c.units()] is_finite(c) implies {
            &&& abs(d * x.units() - target) <= abs(d * c.units() - target)
            &&& abs(d * x.units() - target) == abs(d * c.units() - target) ==> c.units()
                == x.units() || x.bits % 2 == 0
        } by {
            let mc = magnitude(c.code());
            law_rounding_is_nearest(n, d, c.code());
            law_rounding_is_nearest(n, d, 0);
            assert(d * 0 == 0);
            assert(d * (-(mc as int)) == -(d * mc)) by (nonlinear_arith);
            assert(d * (-(m as int)) == -(d * m)) by (nonlinear_arith);
            assert(abs(d * x.units() - target) == distance(n, d, code));
            if c.negative() == negative {
                assert(abs(d * c.units() - target) == distance(n, d, c.code()));
                if c.code() != code && distance(n, d, c.code()) == distance(n, d, code) {
                    lemma_tie(n, d, c.code());
                }
            } else {
                assert(abs(d * c.units() - target) == n + d * mc);
                if mc > 0 {
                    assert(d * mc > 0) by (nonlinear_arith)
                        requires
                            d > 0,
                            mc > 0,
                    ;
                } else {
                    assert(distance(n, d, 0) == n);
                    if code != 0 && distance(n, d, 0) == distance(n, d, code) {
                        lemma_tie(n, d, 0);
                    }
                }
            }
        }
    } else {
        assert(!rounds_below(n, d, 0x7fef_ffff_ffff_ffff));
    }
}

/// Of two codes that are equally near, the even one is taken.
proof fn lemma_tie(n: nat, d: nat, other: nat)
    requires
        d > 0,
        round_code(n, d) < 0x7ff0_0000_0000_0000,
        other != round_code(n, d),
        distance(n, d, other) == distance(n, d, round_code(n, d)),
    ensures
        round_code(n, d) % 2 == 0,
{
    let code = round_code(n, d);
    law_rounding_is_total(n, d);
    let m = magnitude(code);
    let o = magnitude(other);
    if code < other {
        let next = magnitude(code + 1);
        lemma_magnitude_increases(code, other);
        if code + 1 < other {
            lemma_magnitude_increases(code + 1, other);
            assert(d * (m + next) < d * m + d * o && d * m < d * o) by (nonlinear_arith)
                requires
                    d > 0,
                    m < o,
                    next < o,
            ;
            assert(false);
        }
        assert(d * (m + next) == d * m + d * next && d * m < d * next) by (nonlinear_arith)
            requires
                d > 0,
                m < next,
        ;
    } else {
        let previous = magnitude((code - 1) as nat);
        lemma_magnitude_increases(other, code);
        if other < code - 1 {
            lemma_magnitude_increases(other, (code - 1) as nat);
            assert(d * (previous + m) > d * o + d * m && d * o < d * m) by (nonlinear_arith)
                requires
                    d > 0,
                    o < previous,
                    o < m,
            ;
            assert(false);
        }
        assert(d * (previous + m) == d * previous + d * m && d * previous < d * m) by (
        nonlinear_arith)
            requires
                d > 0,
                previous < m,
        ;
    }
}

} // verus!
