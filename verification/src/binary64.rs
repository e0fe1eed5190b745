//! IEEE 754 binary64 numbers, held as their 64-bit encodings.
//!
//! Prices, quantities and rates of the order book are binary64 numbers.  Their
//! arithmetic is carried out on integers and rounds to nearest, ties to even.

use crate::rounding::{
    lemma_magnitude_increases, lemma_round_code, magnitude, round_code,
    round_integer, round_product, round_ratio, round_sum, INFINITY_CODE,
};
use vstd::arithmetic::power2::pow2;
use vstd::prelude::*;

verus! {

/// The sign bit.
pub const SIGN: u64 = 0x8000_0000_0000_0000;

/// The code of the quiet NaN that invalid operations give.
pub const NAN_CODE: u64 = 0x7ff8_0000_0000_0000;

/// A binary64 number.
#[derive(Clone, Copy, Debug)]
pub struct Binary64 {
    /// The IEEE 754 encoding.
    pub bits: u64,
}

impl Binary64 {
    /// The encoding without its sign.
    pub open spec fn code(self) -> nat {
        if self.bits < SIGN {
            self.bits as nat
        } else {
            (self.bits - SIGN) as nat
        }
    }

    /// Whether the sign bit is set.
    pub open spec fn negative(self) -> bool {
        self.bits >= SIGN
    }

    /// The number with the given sign and code.
    pub open spec fn of(negative: bool, code: nat) -> Binary64 {
        Binary64 {
            bits: (code + if negative {
                SIGN as int
            } else {
                0
            }) as u64,
        }
    }

    pub open spec fn is_nan(self) -> bool {
        self.code() > INFINITY_CODE
    }

    pub open spec fn is_infinite(self) -> bool {
        self.code() == INFINITY_CODE
    }

    pub open spec fn is_zero(self) -> bool {
        self.code() == 0
    }

    /// The exact value of a finite number, in units of `2^-1074`.
    pub open spec fn units(self) -> int {
        if self.negative() {
            -(magnitude(self.code()) as int)
        } else {
            magnitude(self.code()) as int
        }
    }

    /// The place of a number in numeric order; both zeros have the same one.
    pub open spec fn rank(self) -> int {
        if self.negative() {
            -(self.code() as int)
        } else {
            self.code() as int
        }
    }

    /// Numeric `self < other`; false when either is NaN.
    pub open spec fn below(self, other: Binary64) -> bool {
        !self.is_nan() && !other.is_nan() && self.rank() < other.rank()
    }

    /// Numeric `self <= other`; false when either is NaN.
    pub open spec fn at_most(self, other: Binary64) -> bool {
        !self.is_nan() && !other.is_nan() && self.rank() <= other.rank()
    }

    /// Numeric `self == other`; false when either is NaN.
    pub open spec fn same(self, other: Binary64) -> bool {
        !self.is_nan() && !other.is_nan() && self.rank() == other.rank()
    }

    /// A number greater than zero, infinity included and NaN not.
    pub open spec fn positive(self) -> bool {
        0 < self.rank() <= INFINITY_CODE
    }

    /// The signed number nearest to `n / d` units.
    pub open spec fn rounded(negative: bool, n: nat, d: nat) -> Binary64 {
        Binary64::of(negative, round_code(n, d))
    }

    pub open spec fn negation(self) -> Binary64 {
        Binary64::of(!self.negative(), self.code())
    }

    pub open spec fn magnitude_of(self) -> Binary64 {
        Binary64::of(false, self.code())
    }

    pub open spec fn sum(self, other: Binary64) -> Binary64 {
        if self.is_nan() || other.is_nan() {
            Binary64::of(false, NAN_CODE as nat)
        } else if self.is_infinite() {
            if other.is_infinite() && self.negative() != other.negative() {
                Binary64::of(false, NAN_CODE as nat)
            } else {
                self
            }
        } else if other.is_infinite() {
            other
        } else {
            let total = self.units() + other.units();
            if total == 0 {
                Binary64::of(self.negative() && other.negative(), 0)
            } else if total < 0 {
                Binary64::rounded(true, (-total) as nat, 1)
            } else {
                Binary64::rounded(false, total as nat, 1)
            }
        }
    }

    pub open spec fn difference(self, other: Binary64) -> Binary64 {
        self.sum(other.negation())
    }

    pub open spec fn product(self, other: Binary64) -> Binary64 {
        let negative = self.negative() != other.negative();
        if self.is_nan() || other.is_nan() {
            Binary64::of(false, NAN_CODE as nat)
        } else if self.is_infinite() || other.is_infinite() {
            if self.is_zero() || other.is_zero() {
                Binary64::of(false, NAN_CODE as nat)
            } else {
                Binary64::of(negative, INFINITY_CODE as nat)
            }
        } else {
            Binary64::rounded(
                negative,
                magnitude(self.code()) * magnitude(other.code()),
                pow2(1074),
            )
        }
    }

    pub open spec fn quotient(self, other: Binary64) -> Binary64 {
        let negative = self.negative() != other.negative();
        if self.is_nan() || other.is_nan() {
            Binary64::of(false, NAN_CODE as nat)
        } else if self.is_infinite() {
            if other.is_infinite() {
                Binary64::of(false, NAN_CODE as nat)
            } else {
                Binary64::of(negative, INFINITY_CODE as nat)
            }
        } else if other.is_infinite() {
            Binary64::of(negative, 0)
        } else if other.is_zero() {
            if self.is_zero() {
                Binary64::of(false, NAN_CODE as nat)
            } else {
                Binary64::of(negative, INFINITY_CODE as nat)
            }
        } else {
            Binary64::rounded(
                negative,
                magnitude(self.code()) * pow2(1074),
                magnitude(other.code()),
            )
        }
    }

    /// The number nearest to a natural.
    pub open spec fn integer(value: nat) -> Binary64 {
        Binary64::rounded(false, value * pow2(1074), 1)
    }

    /// A key that orders numbers as a total order: by value, NaN above all else,
    /// with the two zeros sharing a key and all NaNs sharing one.
    pub open spec fn order_key(self) -> u64 {
        if self.is_nan() {
            u64::MAX
        } else {
            (SIGN + self.rank()) as u64
        }
    }

    /// The number with this encoding.
    pub fn from_bits(bits: u64) -> (x: Binary64)
        ensures
            x.bits == bits,
    {
        Binary64 { bits }
    }

    /// The encoding of this number.
    pub fn to_bits(self) -> (bits: u64)
        ensures
            bits == self.bits,
    {
        self.bits
    }

    /// Positive zero.
    pub fn zero() -> (x: Binary64)
        ensures
            x == Binary64::of(false, 0),
    {
        Binary64 { bits: 0 }
    }

    fn build(negative: bool, code: u64) -> (x: Binary64)
        requires
            code < SIGN,
        ensures
            x == Binary64::of(negative, code as nat),
            x.negative() == negative,
            x.code() == code,
    {
        if negative {
            Binary64 { bits: SIGN + code }
        } else {
            Binary64 { bits: code }
        }
    }

    fn code_bits(self) -> (code: u64)
        ensures
            code == self.code(),
            code < SIGN,
    {
        if self.bits < SIGN {
            self.bits
        } else {
            self.bits - SIGN
        }
    }

    fn sign_bit(self) -> (negative: bool)
        ensures
            negative == self.negative(),
    {
        self.bits >= SIGN
    }

    fn signed_code(self) -> (rank: i64)
        ensures
            rank == self.rank(),
    {
        let code = self.code_bits() as i64;
        if self.sign_bit() {
            -code
        } else {
            code
        }
    }

    pub fn is_not_a_number(self) -> (b: bool)
        ensures
            b == self.is_nan(),
    {
        self.code_bits() > INFINITY_CODE
    }

    pub fn is_below(self, other: Binary64) -> (b: bool)
        ensures
            b == self.below(other),
    {
        !self.is_not_a_number() && !other.is_not_a_number() && self.signed_code()
            < other.signed_code()
    }

    pub fn is_at_most(self, other: Binary64) -> (b: bool)
        ensures
            b == self.at_most(other),
    {
        !self.is_not_a_number() && !other.is_not_a_number() && self.signed_code()
            <= other.signed_code()
    }

    pub fn is_same(self, other: Binary64) -> (b: bool)
        ensures
            b == self.same(other),
    {
        !self.is_not_a_number() && !other.is_not_a_number() && self.signed_code()
            == other.signed_code()
    }

    pub fn is_positive(self) -> (b: bool)
        ensures
            b == self.positive(),
    {
        !self.is_not_a_number() && self.signed_code() > 0
    }

    pub fn negated(self) -> (x: Binary64)
        ensures
            x == self.negation(),
    {
        Binary64::build(!self.sign_bit(), self.code_bits())
    }

    pub fn absolute(self) -> (x: Binary64)
        ensures
            x == self.magnitude_of(),
    {
        Binary64::build(false, self.code_bits())
    }

    pub fn plus(self, other: Binary64) -> (x: Binary64)
        ensures
            x == self.sum(other),
    {
        let a = self.code_bits();
        let b = other.code_bits();
        if a > INFINITY_CODE || b > INFINITY_CODE {
            return Binary64::build(false, NAN_CODE);
        }
        if a == INFINITY_CODE {
            if b == INFINITY_CODE && self.sign_bit() != other.sign_bit() {
                return Binary64::build(false, NAN_CODE);
            }
            return self;
        }
        if b == INFINITY_CODE {
            return other;
        }
        let subtract = self.sign_bit() != other.sign_bit();
        if subtract && a == b {
            return Binary64::build(false, 0);
        }
        proof {
            if a < b {
                lemma_magnitude_increases(a as nat, b as nat);
            } else if b < a {
                lemma_magnitude_increases(b as nat, a as nat);
            }
            if a > 0 {
                lemma_magnitude_increases(0, a as nat);
            }
            if b > 0 {
                lemma_magnitude_increases(0, b as nat);
            }
        }
        if a >= b {
            let code = round_sum(a, b, subtract);
            proof {
                let total = self.units() + other.units();
                let n = if total < 0 {
                    (-total) as nat
                } else {
                    total as nat
                };
                lemma_round_code(n, 1, code as nat);
                if total == 0 {
                    lemma_zero_rounds_to_zero(1);
                }
            }
            Binary64::build(self.sign_bit(), code)
        } else {
            let code = round_sum(b, a, subtract);
            proof {
                let total = self.units() + other.units();
                let n = if total < 0 {
                    (-total) as nat
                } else {
                    total as nat
                };
                lemma_round_code(n, 1, code as nat);
            }
            Binary64::build(other.sign_bit(), code)
        }
    }

    pub fn minus(self, other: Binary64) -> (x: Binary64)
        ensures
            x == self.difference(other),
    {
        self.plus(other.negated())
    }

    pub fn times(self, other: Binary64) -> (x: Binary64)
        ensures
            x == self.product(other),
    {
        let a = self.code_bits();
        let b = other.code_bits();
        let negative = self.sign_bit() != other.sign_bit();
        if a > INFINITY_CODE || b > INFINITY_CODE {
            return Binary64::build(false, NAN_CODE);
        }
        if a == INFINITY_CODE || b == INFINITY_CODE {
            if a == 0 || b == 0 {
                return Binary64::build(false, NAN_CODE);
            }
            return Binary64::build(negative, INFINITY_CODE);
        }
        let code = round_product(a, b);
        proof {
            vstd::arithmetic::power2::lemma_pow2_pos(1074);
            lemma_round_code(
                magnitude(a as nat) * magnitude(b as nat),
                pow2(1074),
                code as nat,
            );
        }
        Binary64::build(negative, code)
    }

    pub fn over(self, other: Binary64) -> (x: Binary64)
        ensures
            x == self.quotient(other),
    {
        let a = self.code_bits();
        let b = other.code_bits();
        let negative = self.sign_bit() != other.sign_bit();
        if a > INFINITY_CODE || b > INFINITY_CODE {
            return Binary64::build(false, NAN_CODE);
        }
        if a == INFINITY_CODE {
            if b == INFINITY_CODE {
                return Binary64::build(false, NAN_CODE);
            }
            return Binary64::build(negative, INFINITY_CODE);
        }
        if b == INFINITY_CODE {
            return Binary64::build(negative, 0);
        }
        if b == 0 {
            if a == 0 {
                return Binary64::build(false, NAN_CODE);
            }
            return Binary64::build(negative, INFINITY_CODE);
        }
        let code = round_ratio(a, b);
        proof {
            lemma_round_code(
                magnitude(a as nat) * pow2(1074),
                magnitude(b as nat),
                code as nat,
            );
        }
        Binary64::build(negative, code)
    }

    /// The number nearest to `value`.
    pub fn whole(value: u64) -> (x: Binary64)
        ensures
            x == Binary64::integer(value as nat),
    {
        let code = round_integer(value);
        proof {
            lemma_round_code(value as nat * pow2(1074), 1, code as nat);
        }
        Binary64::build(false, code)
    }

    /// The key of this number in the total order.
    pub fn total_order_key(self) -> (key: u64)
        ensures
            key == self.order_key(),
    {
        let code = self.code_bits();
        if code > INFINITY_CODE {
            u64::MAX
        } else if self.sign_bit() {
            SIGN - code
        } else {
            SIGN + code
        }
    }
}

/// Zero rounds to zero.
pub proof fn lemma_zero_rounds_to_zero(d: nat)
    requires
        d > 0,
    ensures
        round_code(0, d) == 0,
{
    crate::rounding::lemma_exact_is_nearest(d, 0);
    assert(d * magnitude(0) == 0) by (nonlinear_arith)
        requires
            magnitude(0) == 0,
    ;
}

impl PartialEq for Binary64 {
    fn eq(&self, other: &Binary64) -> (b: bool) {
        self.is_same(*other)
    }
}

impl vstd::std_specs::cmp::PartialEqSpecImpl for Binary64 {
    open spec fn obeys_eq_spec() -> bool {
        true
    }

    open spec fn eq_spec(&self, other: &Binary64) -> bool {
        self.same(*other)
    }
}

} // verus!
