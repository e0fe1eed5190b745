//! Rounding of exact fractions to the binary64 grid.
//!
//! A non-negative binary64 number is named by its code: the low 63 bits of its
//! encoding.  Every finite number is a whole multiple of `2^-1074`, the smallest
//! positive one, so magnitudes are counted in that unit and are naturals.

use vstd::arithmetic::power2::pow2;
use vstd::arithmetic::power2::{lemma_pow2_adds, lemma_pow2_pos, lemma_pow2_strictly_increases};
use vstd::prelude::*;

verus! {

/// Codes per binade: the fraction field has 52 bits.
pub const FRACTION: u64 = 0x10_0000_0000_0000;

/// The code of infinity; finite codes lie below it, NaN codes above.
pub const INFINITY_CODE: u64 = 0x7ff0_0000_0000_0000;

/// The magnitude that a code stands for, in units of `2^-1074`.
pub open spec fn magnitude(code: nat) -> nat {
    if code < FRACTION {
        code
    } else {
        ((FRACTION + code % (FRACTION as nat)) * pow2((code / (FRACTION as nat) - 1) as nat)) as nat
    }
}

/// The fraction `n / d` lies below the midpoint between `code` and the next code,
/// or on it when `code` is the even one of the two.
pub open spec fn rounds_below(n: nat, d: nat, code: nat) -> bool {
    let midpoint = d * (magnitude(code) + magnitude(code + 1));
    2 * n < midpoint || (2 * n == midpoint && code % 2 == 0)
}

/// `code` is the nearest one to `n / d` units, ties going to the even code and
/// what lies past the largest finite number going to infinity.
pub open spec fn nearest(n: nat, d: nat, code: nat) -> bool {
    &&& code <= INFINITY_CODE
    &&& code < INFINITY_CODE ==> rounds_below(n, d, code)
    &&& code > 0 ==> !rounds_below(n, d, (code - 1) as nat)
}

/// The code that `n / d` units round to.
pub open spec fn round_code(n: nat, d: nat) -> nat {
    choose|code: nat| nearest(n, d, code)
}

/// The binade exponent of a code: neighbouring codes differ by `2^exponent` units.
pub open spec fn code_exponent(code: nat) -> nat {
    if code < FRACTION {
        0
    } else {
        (code / (FRACTION as nat) - 1) as nat
    }
}

/// The significand of a code, so that its magnitude is `significand * 2^exponent`.
pub open spec fn code_significand(code: nat) -> nat {
    (code - code_exponent(code) * FRACTION) as nat
}

pub proof fn lemma_magnitude_split(q: nat, t: nat)
    requires
        t <= 2 * FRACTION,
        q > 0 ==> t >= FRACTION,
    ensures
        magnitude((q * FRACTION + t) as nat) == t * pow2(q),
{
    let f = FRACTION as int;
    let c = q * f + t;
    assert(pow2(0) == 1) by {
        vstd::arithmetic::power2::lemma2_to64();
    }
    if t < f {
        assert(t * pow2(0) == t);
    } else if t < 2 * f {
        assert(c == (q + 1) * f + (t - f)) by (nonlinear_arith)
            requires
                c == q * f + t,
        ;
        vstd::arithmetic::div_mod::lemma_fundamental_div_mod_converse(c, f, (q + 1) as int, t - f);
        assert(magnitude(c as nat) == t * pow2(q));
    } else {
        assert(c == (q + 2) * f + 0) by (nonlinear_arith)
            requires
                c == q * f + t,
                t == 2 * f,
        ;
        vstd::arithmetic::div_mod::lemma_fundamental_div_mod_converse(c, f, (q + 2) as int, 0);
        vstd::arithmetic::power2::lemma_pow2_unfold(q + 1);
        assert(f * (2 * pow2(q)) == (2 * f) * pow2(q)) by (nonlinear_arith);
    }
}

pub proof fn lemma_code_split(code: nat)
    ensures
        code == code_exponent(code) * FRACTION + code_significand(code),
        code_significand(code) < 2 * FRACTION,
        code_exponent(code) > 0 ==> code_significand(code) >= FRACTION,
        magnitude(code) == code_significand(code) * pow2(code_exponent(code)),
        magnitude(code + 1) == (code_significand(code) + 1) * pow2(code_exponent(code)),
        magnitude(code) + magnitude(code + 1) == (2 * code_significand(code) + 1) * pow2(
            code_exponent(code),
        ),
        magnitude(code) < magnitude(code + 1),
        code % 2 == code_significand(code) % 2,
{
    let f = FRACTION as int;
    let q = code_exponent(code);
    let t = code - q * f;
    if code >= f {
        vstd::arithmetic::div_mod::lemma_fundamental_div_mod(code as int, f);
        assert(t == f + code % (f as nat)) by (nonlinear_arith)
            requires
                code == f * (code as int / f) + code % (f as nat),
                q == code as int / f - 1,
                t == code - q * f,
        ;
    } else {
        assert(q * f == 0);
    }
    lemma_magnitude_split(q, t as nat);
    lemma_magnitude_split(q, (t + 1) as nat);
    lemma_pow2_pos(q);
    let p = pow2(q);
    assert(t * p + (t + 1) * p == (2 * t + 1) * p) by (nonlinear_arith);
    assert((t + 1) * p == t * p + p) by (nonlinear_arith);
    assert(q * f == 2 * (q * (f / 2))) by (nonlinear_arith)
        requires
            f == 2 * (f / 2),
    ;
}

/// A larger code stands for a larger magnitude.
pub proof fn lemma_magnitude_increases(a: nat, b: nat)
    requires
        a < b,
    ensures
        magnitude(a) < magnitude(b),
    decreases b - a,
{
    lemma_code_split(a);
    if a + 1 < b {
        lemma_magnitude_increases(a + 1, b);
    }
}

/// Once a fraction rounds at or below a code, it does so for every larger code.
pub proof fn lemma_rounds_below_monotone(n: nat, d: nat, a: nat, b: nat)
    requires
        d > 0,
        a < b,
        rounds_below(n, d, a),
    ensures
        rounds_below(n, d, b),
{
    lemma_magnitude_increases(a, b);
    lemma_magnitude_increases(a + 1, b + 1);
    let x = magnitude(a) + magnitude(a + 1);
    let y = magnitude(b) + magnitude(b + 1);
    assert(d * x < d * y) by (nonlinear_arith)
        requires
            d > 0,
            x < y,
    ;
}

/// At most one code is nearest to a fraction.
pub proof fn lemma_nearest_unique(n: nat, d: nat, a: nat, b: nat)
    requires
        d > 0,
        nearest(n, d, a),
        nearest(n, d, b),
    ensures
        a == b,
{
    if a < b {
        if a < b - 1 {
            lemma_rounds_below_monotone(n, d, a, (b - 1) as nat);
        }
    } else if b < a {
        if b < a - 1 {
            lemma_rounds_below_monotone(n, d, b, (a - 1) as nat);
        }
    }
}

pub proof fn lemma_round_code(n: nat, d: nat, code: nat)
    requires
        d > 0,
        nearest(n, d, code),
    ensures
        round_code(n, d) == code,
{
    lemma_nearest_unique(n, d, code, round_code(n, d));
}

/// Rounding depends on the quotient alone.
pub proof fn lemma_nearest_scale(n: nat, d: nat, s: nat, code: nat)
    requires
        s > 0,
    ensures
        nearest(n * s, d * s, code) == nearest(n, d, code),
{
    lemma_rounds_below_scale(n, d, s, code);
    if code > 0 {
        lemma_rounds_below_scale(n, d, s, (code - 1) as nat);
    }
}

proof fn lemma_rounds_below_scale(n: nat, d: nat, s: nat, code: nat)
    requires
        s > 0,
    ensures
        rounds_below(n * s, d * s, code) == rounds_below(n, d, code),
{
    let m = magnitude(code) + magnitude(code + 1);
    let l = 2 * n;
    let r = d * m;
    assert(2 * (n * s) == l * s && (d * s) * m == r * s) by (nonlinear_arith)
        requires
            l == 2 * n,
            r == d * m,
    ;
    assert((l < r) == (l * s < r * s)) by (nonlinear_arith)
        requires
            s > 0,
    ;
    assert((l == r) == (l * s == r * s)) by (nonlinear_arith)
        requires
            s > 0,
    ;
}

/// A number that is on the grid rounds to itself.
pub proof fn lemma_exact_is_nearest(d: nat, code: nat)
    requires
        d > 0,
        code <= INFINITY_CODE,
    ensures
        nearest(d * magnitude(code), d, code),
        round_code(d * magnitude(code), d) == code,
{
    let m = magnitude(code);
    lemma_code_split(code);
    let up = magnitude(code + 1);
    assert(2 * (d * m) < d * (m + up)) by (nonlinear_arith)
        requires
            d > 0,
            m < up,
    ;
    if code > 0 {
        lemma_code_split((code - 1) as nat);
        let down = magnitude((code - 1) as nat);
        assert(2 * (d * m) > d * (down + m)) by (nonlinear_arith)
            requires
                d > 0,
                down < m,
        ;
    }
    lemma_round_code(d * m, d, code);
}

/// The factor by which scaling with `2^k` multiplies.
pub open spec fn scale_up(k: int) -> nat {
    pow2(if k > 0 { k as nat } else { 0 })
}

/// The factor by which scaling with `2^k` divides.
pub open spec fn scale_down(k: int) -> nat {
    pow2(if k < 0 { (-k) as nat } else { 0 })
}

/// `n / d` equals `m * 2^k` when `exact`, and lies strictly between `m * 2^k`
/// and `(m + 1) * 2^k` otherwise.
pub open spec fn truncates_to(n: nat, d: nat, m: nat, k: int, exact: bool) -> bool {
    if exact {
        n * scale_down(k) == d * (m * scale_up(k))
    } else {
        d * (m * scale_up(k)) < n * scale_down(k) < d * ((m + 1) * scale_up(k))
    }
}

/// Rounding within one binade, from the significand below the fraction.
#[verifier::spinoff_prover]
#[verifier::rlimit(40)]
proof fn lemma_nearest_in_binade(n: nat, d: nat, q: nat, t: nat, up: bool)
    requires
        d > 0,
        t < 2 * FRACTION,
        q > 0 ==> t >= FRACTION,
        d * (t * pow2(q)) <= n < d * ((t + 1) * pow2(q)),
        up <==> !(2 * n < d * ((2 * t + 1) * pow2(q)) || (2 * n == d * ((2 * t + 1) * pow2(q)) && t
            % 2 == 0)),
    ensures
        ({
            let code = q * FRACTION + t + (if up { 1int } else { 0 });
            nearest(n, d, if code < INFINITY_CODE { code as nat } else { INFINITY_CODE as nat })
        }),
{
    let f = FRACTION as int;
    let low = (q * f + t) as nat;
    let p = pow2(q);
    lemma_magnitude_split(q, t);
    lemma_magnitude_split(q, t + 1);
    assert(t * p + (t + 1) * p == (2 * t + 1) * p) by (nonlinear_arith);
    assert(q * f == 2 * (q * (f / 2))) by (nonlinear_arith)
        requires
            f == 2 * (f / 2),
    ;
    assert(low % 2 == t % 2);
    assert(rounds_below(n, d, low) == !up);
    let code = if up {
        low + 1
    } else {
        low
    };
    if !up && low > 0 {
        lemma_magnitude_increases((low - 1) as nat, low);
        let a = magnitude((low - 1) as nat);
        let b = magnitude(low);
        assert(d * (a + b) < 2 * n) by (nonlinear_arith)
            requires
                d > 0,
                a < b,
                d * b <= n,
        ;
    }
    if up {
        lemma_magnitude_increases(low + 1, low + 2);
        let b = magnitude(low + 1);
        let c = magnitude(low + 2);
        assert(2 * n < d * (b + c)) by (nonlinear_arith)
            requires
                d > 0,
                b < c,
                n < d * b,
        ;
    }
    if code > INFINITY_CODE {
        if rounds_below(n, d, (INFINITY_CODE - 1) as nat) {
            lemma_rounds_below_monotone(n, d, (INFINITY_CODE - 1) as nat, (code - 1) as nat);
        }
    }
}

/// Rounding from a truncated fraction when its last binary places are dropped.
#[verifier::spinoff_prover]
#[verifier::rlimit(40)]
proof fn lemma_nearest_by_dropping(
    n: nat,
    d: nat,
    m: nat,
    k: int,
    exact: bool,
    q: nat,
    t: nat,
    rem: nat,
    up: bool,
)
    requires
        d > 0,
        truncates_to(n, d, m, k, exact),
        q >= k,
        !exact ==> q > k,
        m == t * pow2((q - k) as nat) + rem,
        rem < pow2((q - k) as nat),
        t < 2 * FRACTION,
        q > 0 ==> t >= FRACTION,
        up <==> (2 * rem > pow2((q - k) as nat) || (2 * rem == pow2((q - k) as nat) && (!exact || t
            % 2 == 1))),
    ensures
        ({
            let code = q * FRACTION + t + (if up { 1int } else { 0 });
            nearest(n, d, if code < INFINITY_CODE { code as nat } else { INFINITY_CODE as nat })
        }),
{
    let s = (q - k) as nat;
    let p = pow2(s);
    let u = scale_up(k);
    let v = scale_down(k);
    let g = pow2(q);
    lemma_pow2_pos(s);
    lemma_pow2_pos(q);
    lemma_pow2_pos(if k > 0 { k as nat } else { 0 });
    lemma_pow2_pos(if k < 0 { (-k) as nat } else { 0 });
    assert(pow2(0) == 1) by {
        vstd::arithmetic::power2::lemma2_to64();
    }
    assert(g * v == p * u) by {
        if k >= 0 {
            lemma_pow2_adds(s, k as nat);
            assert(g * 1 == g);
        } else {
            lemma_pow2_adds(q, (-k) as nat);
            assert(p * 1 == p);
        }
    }
    let x = n * v;
    let base = d * (t * (p * u));
    let du = d * u;
    assert(d * (m * u) == base + du * rem) by (nonlinear_arith)
        requires
            m == t * p + rem,
            base == d * (t * (p * u)),
            du == d * u,
    ;
    assert(d * ((m + 1) * u) == base + du * rem + du) by (nonlinear_arith)
        requires
            m == t * p + rem,
            base == d * (t * (p * u)),
            du == d * u,
    ;
    let e = x - base - du * rem;
    assert(0 <= e && (exact ==> e == 0) && (!exact ==> 0 < e < du));
    assert(du > 0) by (nonlinear_arith)
        requires
            d > 0,
            u > 0,
            du == d * u,
    ;
    // The fraction against the significands on both sides of it.
    assert((d * (t * g)) * v == base) by (nonlinear_arith)
        requires
            g * v == p * u,
            base == d * (t * (p * u)),
    ;
    assert((d * ((t + 1) * g)) * v == base + du * p) by (nonlinear_arith)
        requires
            g * v == p * u,
            base == d * (t * (p * u)),
            du == d * u,
    ;
    assert((d * ((2 * t + 1) * g)) * v == 2 * base + du * p) by (nonlinear_arith)
        requires
            g * v == p * u,
            base == d * (t * (p * u)),
            du == d * u,
    ;
    assert(du * rem >= 0) by (nonlinear_arith)
        requires
            du > 0,
    ;
    assert(x >= base);
    assert(x < base + du * p) by {
        assert(du * (rem + 1) <= du * p) by (nonlinear_arith)
            requires
                du > 0,
                rem + 1 <= p,
        ;
        assert(du * (rem + 1) == du * rem + du) by (nonlinear_arith);
    }
    let lo = d * (t * g);
    let hi = d * ((t + 1) * g);
    let mid = d * ((2 * t + 1) * g);
    assert(lo <= n) by (nonlinear_arith)
        requires
            lo * v <= n * v,
            v > 0,
    ;
    assert(n < hi) by (nonlinear_arith)
        requires
            n * v < hi * v,
            v > 0,
    ;
    // The fraction against the midpoint.
    let twice = 2 * n;
    assert(twice * v == 2 * x) by (nonlinear_arith)
        requires
            twice == 2 * n,
            x == n * v,
    ;
    assert(2 * (du * rem) == du * (2 * rem)) by (nonlinear_arith);
    if 2 * rem > p {
        assert(du * (2 * rem) > du * p) by (nonlinear_arith)
            requires
                du > 0,
                2 * rem > p,
        ;
        assert(twice > mid) by (nonlinear_arith)
            requires
                twice * v > mid * v,
                v > 0,
        ;
    } else if 2 * rem == p {
        if exact {
            assert(twice == mid) by (nonlinear_arith)
                requires
                    twice * v == mid * v,
                    v > 0,
            ;
        } else {
            assert(twice > mid) by (nonlinear_arith)
                requires
                    twice * v > mid * v,
                    v > 0,
            ;
        }
    } else {
        if exact {
            assert(du * (2 * rem) < du * p) by (nonlinear_arith)
                requires
                    du > 0,
                    2 * rem < p,
            ;
        } else {
            lemma_pow2_adds(1, (s - 1) as nat);
            assert(pow2(1) == 2) by {
                vstd::arithmetic::power2::lemma2_to64();
            }
            assert(2 * rem + 2 <= p);
            assert(du * (2 * rem + 2) <= du * p) by (nonlinear_arith)
                requires
                    du > 0,
                    2 * rem + 2 <= p,
            ;
            assert(du * (2 * rem + 2) == du * (2 * rem) + 2 * du) by (nonlinear_arith);
        }
        assert(twice < mid) by (nonlinear_arith)
            requires
                twice * v < mid * v,
                v > 0,
        ;
    }
    lemma_nearest_in_binade(n, d, q, t, up);
}

/// Rounding when the significand still has room for more binary places.
proof fn lemma_nearest_by_padding(n: nat, d: nat, m: nat, k: int, q: nat, t: nat)
    requires
        d > 0,
        truncates_to(n, d, m, k, true),
        q < k,
        t == m * pow2((k - q) as nat),
        t < 2 * FRACTION,
        q > 0 ==> t >= FRACTION,
    ensures
        ({
            let code = q * FRACTION + t;
            nearest(n, d, if code < INFINITY_CODE { code as nat } else { INFINITY_CODE as nat })
        }),
{
    let g = pow2(q);
    lemma_pow2_pos(q);
    assert(pow2(0) == 1) by {
        vstd::arithmetic::power2::lemma2_to64();
    }
    lemma_pow2_adds((k - q) as nat, q);
    let w = pow2((k - q) as nat);
    assert(n * 1 == n);
    assert(m * (w * g) == t * g) by (nonlinear_arith)
        requires
            t == m * w,
    ;
    assert(n == d * (t * g));
    assert(d * ((t + 1) * g) > n && d * ((2 * t + 1) * g) > 2 * n) by (nonlinear_arith)
        requires
            n == d * (t * g),
            d > 0,
            g > 0,
    ;
    lemma_nearest_in_binade(n, d, q, t, false);
}

/// `2^s`.
fn power_of_two(s: u32) -> (p: u128)
    requires
        s <= 127,
    ensures
        p == pow2(s as nat),
{
    let mut p: u128 = 1;
    let mut i: u32 = 0;
    proof {
        vstd::arithmetic::power2::lemma2_to64();
    }
    while i < s
        invariant
            i <= s <= 127,
            p == pow2(i as nat),
        decreases s - i,
    {
        proof {
            vstd::arithmetic::power2::lemma_pow2_unfold((i + 1) as nat);
            lemma_pow2_127();
            if i + 1 < 127 {
                lemma_pow2_strictly_increases((i + 1) as nat, 127);
            }
        }
        p = p * 2;
        i = i + 1;
    }
    p
}

proof fn lemma_pow2_127()
    ensures
        pow2(127) == 0x8000_0000_0000_0000_0000_0000_0000_0000,
        pow2(128) == 0x1_0000_0000_0000_0000_0000_0000_0000_0000,
{
    vstd::arithmetic::power2::lemma2_to64();
    vstd::arithmetic::power2::lemma2_to64_rest();
    lemma_pow2_adds(63, 64);
    lemma_pow2_adds(64, 64);
}

/// The number of binary digits of `m`.
fn bit_length(m: u128) -> (b: u32)
    requires
        m < pow2(127),
    ensures
        b <= 127,
        m < pow2(b as nat),
        b > 0 ==> pow2((b - 1) as nat) <= m,
{
    let mut p: u128 = 1;
    let mut b: u32 = 0;
    proof {
        vstd::arithmetic::power2::lemma2_to64();
    }
    while p <= m
        invariant
            m < pow2(127),
            b <= 127,
            p == pow2(b as nat),
            b > 0 ==> pow2((b - 1) as nat) <= m,
        decreases 128 - b,
    {
        proof {
            lemma_pow2_127();
            vstd::arithmetic::power2::lemma_pow2_unfold((b + 1) as nat);
        }
        p = p * 2;
        b = b + 1;
    }
    b
}

/// The nearest code to every fraction that truncates to `m * 2^k`.
#[verifier::spinoff_prover]
#[verifier::rlimit(40)]
pub fn round_scaled(m: u128, k: i32, exact: bool) -> (code: u64)
    requires
        m < pow2(127),
        -10000 <= k <= 10000,
        !exact ==> m >= 2 * FRACTION,
    ensures
        code <= INFINITY_CODE,
        forall|n: nat, d: nat|
            d > 0 && #[trigger] truncates_to(n, d, m as nat, k as int, exact) ==> nearest(
                n,
                d,
                code as nat,
            ),
{
    if m == 0 {
        proof {
            assert forall|n: nat, d: nat|
                d > 0 && #[trigger] truncates_to(n, d, m as nat, k as int, exact) implies nearest(
                n,
                d,
                0,
            ) by {
                let v = scale_down(k as int);
                let u = scale_up(k as int);
                lemma_pow2_pos(if k < 0 { (-k) as nat } else { 0 });
                assert(0 * u == 0 && d * 0 == 0) by (nonlinear_arith);
                assert(n == 0) by (nonlinear_arith)
                    requires
                        n * v == 0,
                        v > 0,
                ;
                assert(d * (magnitude(0) + magnitude(1)) == d) by (nonlinear_arith)
                    requires
                        magnitude(0) + magnitude(1) == 1,
                ;
            }
        }
        return 0;
    }
    let b = bit_length(m);
    proof {
        vstd::arithmetic::power2::lemma2_to64();
        vstd::arithmetic::power2::lemma2_to64_rest();
        lemma_pow2_127();
        if !exact && b < 54 {
            if b < 53 {
                lemma_pow2_strictly_increases(b as nat, 53);
            }
        }
    }
    let top: i32 = k + b as i32 - 53;
    let q: i32 = if top > 0 {
        top
    } else {
        0
    };
    if q >= 2046 {
        proof {
            assert forall|n: nat, d: nat|
                d > 0 && #[trigger] truncates_to(n, d, m as nat, k as int, exact) implies nearest(
                n,
                d,
                INFINITY_CODE as nat,
            ) by {
                lemma_round_large(n, d, m as nat, k as int, exact, b as nat, q as nat);
            }
        }
        return INFINITY_CODE;
    }
    if q >= k {
        let s: u32 = (q - k) as u32;
        if s >= 128 {
            proof {
                if s > 128 {
                    lemma_pow2_strictly_increases(128, s as nat);
                }
                assert(0 * pow2(s as nat) == 0);
                assert(q == 0) by {
                    if q > 0 {
                        assert(s == b - 53);
                    }
                }
                assert forall|n: nat, d: nat|
                    d > 0 && #[trigger] truncates_to(
                        n,
                        d,
                        m as nat,
                        k as int,
                        exact,
                    ) implies nearest(n, d, 0) by {
                    lemma_nearest_by_dropping(
                        n,
                        d,
                        m as nat,
                        k as int,
                        exact,
                        q as nat,
                        0,
                        m as nat,
                        false,
                    );
                }
            }
            return 0;
        }
        let p = power_of_two(s);
        proof {
            lemma_pow2_pos(s as nat);
        }
        let t: u128 = m / p;
        let rem: u128 = m % p;
        proof {
            vstd::arithmetic::div_mod::lemma_fundamental_div_mod(m as int, p as int);
            assert(t * p == p * t) by (nonlinear_arith);
            lemma_significand_range(m as nat, t as nat, p as nat, rem as nat, b as nat, q as nat, s as nat, k as int);
        }
        let half: u128 = p - rem;
        let up: bool = rem > half || (rem == half && (!exact || t % 2 == 1));
        let extra: u64 = if up {
            1
        } else {
            0
        };
        let code: u64 = (q as u64) * FRACTION + t as u64 + extra;
        proof {
            assert forall|n: nat, d: nat|
                d > 0 && #[trigger] truncates_to(n, d, m as nat, k as int, exact) implies nearest(
                n,
                d,
                code as nat,
            ) by {
                lemma_nearest_by_dropping(
                    n,
                    d,
                    m as nat,
                    k as int,
                    exact,
                    q as nat,
                    t as nat,
                    rem as nat,
                    up,
                );
            }
        }
        code
    } else {
        let s: u32 = (k - q) as u32;
        proof {
            lemma_padded_range(m as nat, b as nat, q as nat, s as nat, k as int);
        }
        let p = power_of_two(s);
        let t: u128 = m * p;
        let code: u64 = (q as u64) * FRACTION + t as u64;
        proof {
            assert forall|n: nat, d: nat|
                d > 0 && #[trigger] truncates_to(n, d, m as nat, k as int, exact) implies nearest(
                n,
                d,
                code as nat,
            ) by {
                lemma_nearest_by_padding(n, d, m as nat, k as int, q as nat, t as nat);
            }
        }
        code
    }
}

/// A significand that keeps the leading 53 digits is in its binade's range.
#[verifier::spinoff_prover]
#[verifier::rlimit(40)]
proof fn lemma_significand_range(
    m: nat,
    t: nat,
    p: nat,
    rem: nat,
    b: nat,
    q: nat,
    s: nat,
    k: int,
)
    requires
        p == pow2(s),
        m == t * p + rem,
        rem < p,
        b > 0,
        pow2((b - 1) as nat) <= m < pow2(b),
        s == q - k,
        q == if k + b - 53 > 0 {
            k + b - 53
        } else {
            0
        },
    ensures
        t < 2 * FRACTION,
        q > 0 ==> t >= FRACTION,
{
    vstd::arithmetic::power2::lemma2_to64();
    vstd::arithmetic::power2::lemma2_to64_rest();
    lemma_pow2_pos(s);
    lemma_pow2_adds(53, s);
    if b < 53 + s {
        lemma_pow2_strictly_increases(b, 53 + s);
    }
    assert(t < 2 * FRACTION) by (nonlinear_arith)
        requires
            t * p <= m,
            m < (2 * FRACTION) * p,
            p > 0,
    ;
    if q > 0 {
        lemma_pow2_adds(52, s);
        assert(t >= FRACTION) by (nonlinear_arith)
            requires
                t * p + p > m,
                m >= FRACTION * p,
                p > 0,
        ;
    }
}

#[verifier::spinoff_prover]
#[verifier::rlimit(40)]
proof fn lemma_padded_range(m: nat, b: nat, q: nat, s: nat, k: int)
    requires
        b > 0,
        pow2((b - 1) as nat) <= m < pow2(b),
        s == k - q,
        q == if k + b - 53 > 0 {
            k + b - 53
        } else {
            0
        },
        q < k,
    ensures
        s <= 52,
        m * pow2(s) < 2 * FRACTION,
        q > 0 ==> m * pow2(s) >= FRACTION,
{
    vstd::arithmetic::power2::lemma2_to64();
    vstd::arithmetic::power2::lemma2_to64_rest();
    let p = pow2(s);
    lemma_pow2_pos(s);
    lemma_pow2_adds(b, s);
    let top = pow2(b);
    assert(m * p < top * p) by (nonlinear_arith)
        requires
            m < top,
            p > 0,
    ;
    if b + s < 53 {
        lemma_pow2_strictly_increases(b + s, 53);
    }
    if q > 0 {
        lemma_pow2_adds((b - 1) as nat, s);
        let low = pow2((b - 1) as nat);
        assert(low * p <= m * p) by (nonlinear_arith)
            requires
                low <= m,
        ;
    }
}

/// What lies past the largest finite binade rounds to infinity.
#[verifier::spinoff_prover]
#[verifier::rlimit(40)]
proof fn lemma_round_large(n: nat, d: nat, m: nat, k: int, exact: bool, b: nat, q: nat)
    requires
        d > 0,
        truncates_to(n, d, m, k, exact),
        b > 0,
        pow2((b - 1) as nat) <= m < pow2(b),
        q == k + b - 53,
        q >= 2046,
        !exact ==> b >= 54,
    ensures
        nearest(n, d, INFINITY_CODE as nat),
{
    if q >= k {
        let s = (q - k) as nat;
        let p = pow2(s);
        lemma_pow2_pos(s);
        vstd::arithmetic::div_mod::lemma_fundamental_div_mod(m as int, p as int);
        let t = m / p;
        let rem = m % p;
        assert(t * p == p * t) by (nonlinear_arith);
        lemma_significand_range(m, t, p, rem, b, q, s, k);
        let up = 2 * rem > p || (2 * rem == p && (!exact || t % 2 == 1));
        lemma_nearest_by_dropping(n, d, m, k, exact, q, t, rem, up);
        assert(q * FRACTION + t >= INFINITY_CODE);
    } else {
        lemma_padded_range(m, b, q, (k - q) as nat, k);
        let t = m * pow2((k - q) as nat);
        lemma_nearest_by_padding(n, d, m, k, q, t);
        assert(q * FRACTION + t >= INFINITY_CODE);
    }
}

/// Scaling by `2^(i - j)` turns `2^j` parts into `2^i`.
pub proof fn lemma_scale_shift(i: nat, j: nat)
    ensures
        pow2(i) * scale_down(i - j) == pow2(j) * scale_up(i - j),
        scale_up(i - j) > 0,
        scale_down(i - j) > 0,
{
    assert(pow2(0) == 1) by {
        vstd::arithmetic::power2::lemma2_to64();
    }
    if i >= j {
        lemma_pow2_adds(j, (i - j) as nat);
        lemma_pow2_pos((i - j) as nat);
        assert(pow2(i) * 1 == pow2(i));
    } else {
        lemma_pow2_adds(i, (j - i) as nat);
        lemma_pow2_pos((j - i) as nat);
        assert(pow2(j) * 1 == pow2(j));
    }
}

/// Moving `j` binary places between a number and its scale changes nothing.
proof fn lemma_scale_move(k: int, j: nat)
    ensures
        scale_up(k) * scale_down(k - j) == pow2(j) * (scale_down(k) * scale_up(k - j)),
        scale_down(k) * scale_up(k - j) > 0,
        scale_down(k) > 0,
{
    assert(pow2(0) == 1) by {
        vstd::arithmetic::power2::lemma2_to64();
    }
    let a = scale_up(k);
    let b = scale_down(k);
    let x = scale_up(k - j);
    let y = scale_down(k - j);
    let z = pow2(j);
    if k >= j {
        lemma_pow2_adds(j, (k - j) as nat);
        lemma_pow2_pos((k - j) as nat);
        assert(a * y == z * (b * x) && b * x > 0) by (nonlinear_arith)
            requires
                a == z * x,
                y == 1,
                b == 1,
                x > 0,
        ;
    } else if k >= 0 {
        lemma_pow2_adds(k as nat, (j - k) as nat);
        assert(a * y == z * (b * x) && b * x > 0) by (nonlinear_arith)
            requires
                z == a * y,
                x == 1,
                b == 1,
        ;
    } else {
        lemma_pow2_adds(j, (-k) as nat);
        lemma_pow2_pos((-k) as nat);
        assert(a * y == z * (b * x) && b * x > 0) by (nonlinear_arith)
            requires
                y == z * b,
                a == 1,
                x == 1,
                b > 0,
        ;
    }
}

/// The nearest code to `a / b * 2^k`.
#[verifier::spinoff_prover]
#[verifier::rlimit(40)]
pub fn round_quotient(a: u64, b: u64, k: i32) -> (code: u64)
    requires
        b > 0,
        -5000 <= k <= 5000,
    ensures
        code <= INFINITY_CODE,
        nearest(a as nat * scale_up(k as int), b as nat * scale_down(k as int), code as nat),
{
    proof {
        vstd::arithmetic::power2::lemma2_to64();
        vstd::arithmetic::power2::lemma2_to64_rest();
        lemma_pow2_127();
        lemma_scale_move(k as int, 0);
    }
    let ghost d = b as nat * scale_down(k as int);
    proof {
        assert(d > 0) by (nonlinear_arith)
            requires
                d == b as nat * scale_down(k as int),
                b > 0,
                scale_down(k as int) > 0,
        ;
    }
    if a == 0 {
        let code = round_scaled(0, 0, true);
        proof {
            assert(0 * scale_up(k as int) == 0) by (nonlinear_arith);
            assert(d * (0 * scale_up(0)) == 0) by (nonlinear_arith)
                requires
                    0 * scale_up(0) == 0,
            ;
            assert(truncates_to(0, d, 0, 0, true));
        }
        return code;
    }
    let mut x: u64 = a;
    let mut l: i32 = 0;
    assert(a * pow2(0) == a);
    while x < 0x8000_0000_0000_0000
        invariant
            0 <= l <= 63,
            a > 0,
            x == a * pow2(l as nat),
            x >= pow2(l as nat),
        decreases 64 - l,
    {
        proof {
            vstd::arithmetic::power2::lemma2_to64_rest();
            vstd::arithmetic::power2::lemma_pow2_unfold((l + 1) as nat);
            assert(a * (2 * pow2(l as nat)) == 2 * (a * pow2(l as nat))) by (nonlinear_arith);
        }
        x = x * 2;
        l = l + 1;
    }
    let num: u128 = x as u128 * 0x8000_0000_0000_0000;
    let m: u128 = num / b as u128;
    let rem: u128 = num % b as u128;
    let exact = rem == 0;
    let ghost j = (l + 63) as nat;
    proof {
        vstd::arithmetic::div_mod::lemma_fundamental_div_mod(num as int, b as int);
        lemma_pow2_adds(l as nat, 63);
        assert(num == a * pow2(j)) by (nonlinear_arith)
            requires
                num == (a * pow2(l as nat)) * pow2(63),
                pow2(j) == pow2(l as nat) * pow2(63),
        ;
        assert(m <= num) by (nonlinear_arith)
            requires
                num == b * m + rem,
                b > 0,
                rem >= 0,
        ;
        assert(m >= 2 * FRACTION) by (nonlinear_arith)
            requires
                num == b * m + rem,
                0 <= rem < b,
                b <= 0xffff_ffff_ffff_ffff,
                num >= 0x8000_0000_0000_0000 * 0x8000_0000_0000_0000,
        ;
    }
    let code = round_scaled(m, k - 63 - l, exact);
    proof {
        let k2 = k - j;
        lemma_scale_move(k as int, j);
        let z = scale_down(k as int) * scale_up(k2);
        let n = a as nat * scale_up(k as int);
        assert(n * scale_down(k2) == num * z) by (nonlinear_arith)
            requires
                n == a as nat * scale_up(k as int),
                num == a * pow2(j),
                scale_up(k as int) * scale_down(k2) == pow2(j) * z,
        ;
        assert(d * (m as nat * scale_up(k2)) == (b * m) * z) by (nonlinear_arith)
            requires
                d == b as nat * scale_down(k as int),
                z == scale_down(k as int) * scale_up(k2),
        ;
        assert(d * ((m as nat + 1) * scale_up(k2)) == (b * m + b) * z) by (nonlinear_arith)
            requires
                d == b as nat * scale_down(k as int),
                z == scale_down(k as int) * scale_up(k2),
        ;
        if !exact {
            assert((b * m) * z < num * z && num * z < (b * m + b) * z) by (nonlinear_arith)
                requires
                    z > 0,
                    num == b * m + rem,
                    0 < rem < b,
            ;
        }
        assert(truncates_to(n, d, m as nat, k2, exact));
    }
    code
}

/// A larger code is not below in significand once both are brought to the smaller exponent.
proof fn lemma_alignment(a: nat, b: nat)
    requires
        a >= b,
    ensures
        code_exponent(a) >= code_exponent(b),
        code_significand(a) * pow2((code_exponent(a) - code_exponent(b)) as nat)
            >= code_significand(b),
        magnitude(a) == (code_significand(a) * pow2(
            (code_exponent(a) - code_exponent(b)) as nat,
        )) * pow2(code_exponent(b)),
{
    lemma_code_split(a);
    lemma_code_split(b);
    if a > b {
        lemma_magnitude_increases(b, a);
    }
    let f = FRACTION as int;
    assert(code_exponent(a) >= code_exponent(b)) by {
        if b >= f {
            vstd::arithmetic::div_mod::lemma_div_is_ordered(b as int, a as int, f);
        }
    }
    let qa = code_exponent(a);
    let qb = code_exponent(b);
    let s = (qa - qb) as nat;
    lemma_pow2_adds(s, qb);
    lemma_pow2_pos(qb);
    let ta = code_significand(a);
    let tb = code_significand(b);
    let p = pow2(s);
    let g = pow2(qb);
    assert(ta * (p * g) == (ta * p) * g) by (nonlinear_arith);
    assert(ta * p >= tb) by (nonlinear_arith)
        requires
            (ta * p) * g >= tb * g,
            g > 0,
    ;
}

/// The significand and exponent of a code.
fn split_code(code: u64) -> (r: (u64, u32))
    ensures
        r.0 == code_significand(code as nat),
        r.1 == code_exponent(code as nat),
        r.0 < 2 * FRACTION,
        r.1 > 0 ==> r.0 >= FRACTION,
        r.1 <= 0xfff,
{
    proof {
        lemma_code_split(code as nat);
    }
    if code < FRACTION {
        (code, 0)
    } else {
        let q: u64 = code / FRACTION - 1;
        (code - q * FRACTION, q as u32)
    }
}

/// The nearest code to the sum of two magnitudes, or to their difference.
#[verifier::spinoff_prover]
#[verifier::rlimit(40)]
pub fn round_sum(a: u64, b: u64, subtract: bool) -> (code: u64)
    requires
        b <= a < INFINITY_CODE,
    ensures
        code <= INFINITY_CODE,
        nearest(
            if subtract {
                (magnitude(a as nat) - magnitude(b as nat)) as nat
            } else {
                magnitude(a as nat) + magnitude(b as nat)
            },
            1,
            code as nat,
        ),
{
    let (ta, qa) = split_code(a);
    let (tb, qb) = split_code(b);
    let ghost n: nat = if subtract {
        (magnitude(a as nat) - magnitude(b as nat)) as nat
    } else {
        magnitude(a as nat) + magnitude(b as nat)
    };
    proof {
        vstd::arithmetic::power2::lemma2_to64();
        vstd::arithmetic::power2::lemma2_to64_rest();
        lemma_pow2_127();
        lemma_alignment(a as nat, b as nat);
        lemma_code_split(a as nat);
        lemma_code_split(b as nat);
    }
    let diff: u32 = qa - qb;
    if diff <= 64 {
        let p = power_of_two(diff);
        proof {
            if diff < 64 {
                lemma_pow2_strictly_increases(diff as nat, 64);
            }
            assert(ta * p <= (2 * FRACTION) * 0x1_0000_0000_0000_0000) by (nonlinear_arith)
                requires
                    ta < 2 * FRACTION,
                    p <= 0x1_0000_0000_0000_0000,
            ;
        }
        let wide: u128 = ta as u128 * p;
        let m: u128 = if subtract {
            wide - tb as u128
        } else {
            wide + tb as u128
        };
        let code = round_scaled(m, qb as i32, true);
        proof {
            let g = pow2(qb as nat);
            assert(wide * g + tb * g == (wide + tb) * g) by (nonlinear_arith);
            assert(wide * g - tb * g == (wide - tb) * g) by (nonlinear_arith);
            assert(n * 1 == n && 1 * (m as nat * g) == m as nat * g);
            assert(scale_up(qb as int) == g);
            assert(truncates_to(n, 1, m as nat, qb as int, true));
        }
        code
    } else if tb == 0 {
        proof {
            assert(0 * pow2(qb as nat) == 0) by (nonlinear_arith);
            lemma_exact_is_nearest(1, a as nat);
            assert(1 * magnitude(a as nat) == magnitude(a as nat));
        }
        a
    } else {
        let m: u128 = if subtract {
            4 * ta as u128 - 1
        } else {
            4 * ta as u128
        };
        let code = round_scaled(m, qa as i32 - 2, false);
        proof {
            let h = pow2((qa - 2) as nat);
            let g = pow2(qb as nat);
            let low = magnitude(b as nat);
            lemma_pow2_adds(2, (qa - 2) as nat);
            lemma_pow2_pos(qb as nat);
            assert(ta * (4 * h) == (4 * ta) * h) by (nonlinear_arith);
            lemma_pow2_adds(53, qb as nat);
            if 53 + qb < qa - 2 {
                lemma_pow2_strictly_increases((53 + qb) as nat, (qa - 2) as nat);
            }
            assert(0 < tb * g && tb * g < (2 * FRACTION) * g) by (nonlinear_arith)
                requires
                    0 < tb < 2 * FRACTION,
                    g > 0,
            ;
            assert(0 < low < h);
            assert((4 * ta + 1) * h == (4 * ta) * h + h) by (nonlinear_arith);
            assert((4 * ta - 1) * h == (4 * ta) * h - h) by (nonlinear_arith);
            assert(scale_up(qa - 2) == h);
            assert(n * 1 == n);
            assert(1 * (m as nat * h) == m as nat * h);
            assert(1 * ((m as nat + 1) * h) == (m as nat + 1) * h);
            assert(truncates_to(n, 1, m as nat, qa - 2, false));
        }
        code
    }
}

/// The nearest code to the product of two magnitudes.
pub fn round_product(a: u64, b: u64) -> (code: u64)
    requires
        a < INFINITY_CODE,
        b < INFINITY_CODE,
    ensures
        code <= INFINITY_CODE,
        nearest(magnitude(a as nat) * magnitude(b as nat), pow2(1074), code as nat),
{
    let (ta, qa) = split_code(a);
    let (tb, qb) = split_code(b);
    proof {
        vstd::arithmetic::power2::lemma2_to64();
        vstd::arithmetic::power2::lemma2_to64_rest();
        lemma_pow2_127();
        assert(ta * tb <= 0x400_0000_0000_0000_0000_0000_0000) by (nonlinear_arith)
            requires
                ta < 2 * FRACTION,
                tb < 2 * FRACTION,
        ;
    }
    let m: u128 = ta as u128 * tb as u128;
    let k: i32 = qa as i32 + qb as i32 - 1074;
    let code = round_scaled(m, k, true);
    proof {
        lemma_code_split(a as nat);
        lemma_code_split(b as nat);
        lemma_pow2_adds(qa as nat, qb as nat);
        lemma_pow2_pos(1074);
        let i = (qa + qb) as nat;
        lemma_scale_shift(i, 1074);
        let u = scale_up(k as int);
        let v = scale_down(k as int);
        let ga = pow2(qa as nat);
        let gb = pow2(qb as nat);
        let n = magnitude(a as nat) * magnitude(b as nat);
        assert(n == m * pow2(i)) by (nonlinear_arith)
            requires
                n == (ta * ga) * (tb * gb),
                m == ta * tb,
                pow2(i) == ga * gb,
        ;
        assert(n * v == pow2(1074) * (m as nat * u)) by (nonlinear_arith)
            requires
                n == m * pow2(i),
                pow2(i) * v == pow2(1074) * u,
        ;
        assert(truncates_to(n, pow2(1074), m as nat, k as int, true));
    }
    code
}

/// The nearest code to the ratio of two magnitudes.
pub fn round_ratio(a: u64, b: u64) -> (code: u64)
    requires
        a < INFINITY_CODE,
        0 < b < INFINITY_CODE,
    ensures
        code <= INFINITY_CODE,
        magnitude(b as nat) > 0,
        nearest(magnitude(a as nat) * pow2(1074), magnitude(b as nat), code as nat),
{
    let (ta, qa) = split_code(a);
    let (tb, qb) = split_code(b);
    proof {
        lemma_code_split(a as nat);
        lemma_code_split(b as nat);
        lemma_magnitude_increases(0, b as nat);
        assert(0 * pow2(qb as nat) == 0) by (nonlinear_arith);
    }
    let k: i32 = qa as i32 - qb as i32 + 1074;
    let code = round_quotient(ta, tb, k);
    proof {
        let i = (qa + 1074) as nat;
        let j = qb as nat;
        lemma_scale_shift(i, j);
        lemma_pow2_adds(qa as nat, 1074);
        lemma_pow2_pos(j);
        let u = scale_up(k as int);
        let v = scale_down(k as int);
        let n = magnitude(a as nat) * pow2(1074);
        let d = magnitude(b as nat);
        lemma_nearest_scale(ta as nat * u, tb as nat * v, pow2(j), code as nat);
        lemma_nearest_scale(n, d, v, code as nat);
        assert((ta as nat * u) * pow2(j) == n * v) by (nonlinear_arith)
            requires
                n == (ta * pow2(qa as nat)) * pow2(1074),
                pow2(i) == pow2(qa as nat) * pow2(1074),
                pow2(i) * v == pow2(j) * u,
        ;
        assert((tb as nat * v) * pow2(j) == d * v) by (nonlinear_arith)
            requires
                d == tb * pow2(j),
        ;
    }
    code
}

/// The nearest code to a whole number.
pub fn round_integer(value: u64) -> (code: u64)
    ensures
        code <= INFINITY_CODE,
        nearest(value as nat * pow2(1074), 1, code as nat),
{
    proof {
        vstd::arithmetic::power2::lemma2_to64();
        lemma_pow2_127();
    }
    let code = round_scaled(value as u128, 1074, true);
    proof {
        let n = value as nat * pow2(1074);
        assert(n * 1 == n && 1 * n == n);
        assert(truncates_to(n, 1, value as nat, 1074, true));
    }
    code
}

} // verus!
