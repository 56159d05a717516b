//! IEEE-754 binary64 numbers and their arithmetic, on integers.
//!
//! Every operation rounds the exact result to nearest, ties to even. An
//! operation whose result is not a number returns one fixed quiet NaN.

use crate::exact::{
    abs_int, exact_sum, lemma_normal_power, lemma_scaled, lemma_scaled_sum, lemma_shift, lemma_whole, normalise,
};
use crate::rounding::{
    divide_half_even, lemma_power_at_most, lemma_round_scale, lemma_ulp_exponent, lemma_ulp_exponent_bounds, round_code,
    round_parts, two_to, ulp_exponent, GUARD, HIDDEN_BIT, INFINITE_CODE,
};
use vstd::arithmetic::div_mod::*;
use vstd::arithmetic::mul::*;
use vstd::arithmetic::power2::*;
use vstd::prelude::*;

verus! {

/// Weight of the sign bit, `2^63`.
pub const SIGN_BIT: u64 = 0x8000_0000_0000_0000;

/// A binary64 number, held as its encoding. `==` compares encodings.
#[derive(Clone, Copy, Debug, PartialEq, Eq, Structural)]
pub struct Double {
    /// The 64-bit interchange encoding.
    pub bits: u64,
}

/// Positive zero.
#[verifier::allow_in_spec]
pub fn zero() -> (x: Double)
    returns
        (Double { bits: 0 }),
{
    Double { bits: 0 }
}

/// One.
#[verifier::allow_in_spec]
pub fn one() -> (x: Double)
    returns
        (Double { bits: 0x3ff0_0000_0000_0000 }),
{
    Double { bits: 0x3ff0_0000_0000_0000 }
}

/// The quiet NaN that invalid operations return.
#[verifier::allow_in_spec]
pub fn nan() -> (x: Double)
    returns
        (Double { bits: 0x7ff8_0000_0000_0000 }),
{
    Double { bits: 0x7ff8_0000_0000_0000 }
}

/// Positive infinity.
#[verifier::allow_in_spec]
pub fn infinity() -> (x: Double)
    returns
        (Double { bits: 0x7ff0_0000_0000_0000 }),
{
    Double { bits: 0x7ff0_0000_0000_0000 }
}

/// Negative infinity.
#[verifier::allow_in_spec]
pub fn neg_infinity() -> (x: Double)
    returns
        (Double { bits: 0xfff0_0000_0000_0000 }),
{
    Double { bits: 0xfff0_0000_0000_0000 }
}

/// The number with sign `negative` and magnitude code `code`.
pub open spec fn signed(negative: bool, code: nat) -> Double {
    Double {
        bits: if negative {
            (code + 0x8000_0000_0000_0000) as u64
        } else {
            code as u64
        },
    }
}

/// The largest integer whose square is at most `n`.
pub open spec fn floor_sqrt(n: nat) -> nat {
    choose|r: nat| #[trigger] (r * r) <= n < (r + 1) * (r + 1)
}

impl Double {
    /// Whether the sign bit is set.
    pub open spec fn negative(self) -> bool {
        self.bits >= 0x8000_0000_0000_0000
    }

    /// The encoding without its sign bit.
    pub open spec fn code(self) -> nat {
        (self.bits % 0x8000_0000_0000_0000) as nat
    }

    /// Neither infinite nor NaN.
    pub open spec fn finite(self) -> bool {
        self.code() < INFINITE_CODE
    }

    /// One of the two infinities.
    pub open spec fn infinite(self) -> bool {
        self.code() == INFINITE_CODE
    }

    /// Not a number.
    pub open spec fn not_a_number(self) -> bool {
        self.code() > INFINITE_CODE
    }

    /// Exponent of the last significand bit, in units of `2^-1074`.
    pub open spec fn exponent(self) -> nat {
        let field = self.code() / 0x10_0000_0000_0000;
        if field == 0 {
            0
        } else {
            (field - 1) as nat
        }
    }

    /// The significand as an integer.
    pub open spec fn significand(self) -> nat {
        let fraction = self.code() % 0x10_0000_0000_0000;
        if self.code() < 0x10_0000_0000_0000 {
            fraction
        } else {
            fraction + 0x10_0000_0000_0000
        }
    }

    /// Magnitude of a finite number, in units of `2^-1074`.
    pub open spec fn magnitude(self) -> nat {
        self.significand() * pow2(self.exponent())
    }

    /// Exact value of a finite number, in units of `2^-1074`.
    pub open spec fn value(self) -> int {
        if self.negative() {
            -(self.magnitude() as int)
        } else {
            self.magnitude() as int
        }
    }

    /// The number with the given encoding.
    pub fn from_bits(bits: u64) -> (x: Double)
        ensures
            x.bits == bits,
    {
        Double { bits }
    }

    /// The encoding.
    pub fn to_bits(self) -> (bits: u64)
        ensures
            bits == self.bits,
    {
        self.bits
    }

    fn decode(self) -> (parts: (bool, u64, u32))
        requires
            self.finite(),
        ensures
            parts.0 == self.negative(),
            parts.1 == self.significand(),
            parts.2 == self.exponent(),
            parts.1 < 0x20_0000_0000_0000,
            parts.2 <= 2045,
            parts.2 > 0 ==> parts.1 >= 0x10_0000_0000_0000,
    {
        let code: u64 = self.bits % SIGN_BIT;
        let field: u64 = code / HIDDEN_BIT;
        let fraction: u64 = code % HIDDEN_BIT;
        let negative = self.bits >= SIGN_BIT;
        if field == 0 {
            (negative, fraction, 0)
        } else {
            (negative, fraction + HIDDEN_BIT, (field - 1) as u32)
        }
    }

    /// Assembles a number from its sign and magnitude code.
    fn assemble(negative: bool, code: u64) -> (x: Double)
        requires
            code < 0x8000_0000_0000_0000,
        ensures
            x == signed(negative, code as nat),
            x.negative() == negative,
            x.code() == code,
    {
        Double {
            bits: if negative {
                code + SIGN_BIT
            } else {
                code
            },
        }
    }

    /// The negated number.
    pub open spec fn spec_neg(self) -> Double {
        signed(!self.negative(), self.code())
    }

    /// The number without its sign.
    pub open spec fn spec_abs(self) -> Double {
        signed(false, self.code())
    }

    /// The rounded sum.
    #[verifier::opaque]
    pub open spec fn spec_plus(self, other: Double) -> Double {
        if self.not_a_number() || other.not_a_number() {
            nan()
        } else if self.infinite() {
            if other.infinite() && other.negative() != self.negative() {
                nan()
            } else {
                self
            }
        } else if other.infinite() {
            other
        } else {
            let sum = self.value() + other.value();
            if sum == 0 {
                signed(self.negative() && other.negative(), 0)
            } else {
                signed(sum < 0, round_code(abs_int(sum), 1))
            }
        }
    }

    /// The rounded difference.
    pub open spec fn spec_minus(self, other: Double) -> Double {
        self.spec_plus(other.spec_neg())
    }

    /// The rounded product.
    #[verifier::opaque]
    pub open spec fn spec_times(self, other: Double) -> Double {
        let negative = self.negative() != other.negative();
        if self.not_a_number() || other.not_a_number() {
            nan()
        } else if self.infinite() || other.infinite() {
            if self.code() == 0 || other.code() == 0 {
                nan()
            } else {
                signed(negative, INFINITE_CODE as nat)
            }
        } else {
            signed(negative, round_code(self.magnitude() * other.magnitude(), pow2(1074)))
        }
    }

    /// The rounded quotient.
    #[verifier::opaque]
    pub open spec fn spec_over(self, other: Double) -> Double {
        let negative = self.negative() != other.negative();
        if self.not_a_number() || other.not_a_number() {
            nan()
        } else if self.infinite() {
            if other.infinite() {
                nan()
            } else {
                signed(negative, INFINITE_CODE as nat)
            }
        } else if other.infinite() {
            signed(negative, 0)
        } else if other.code() == 0 {
            if self.code() == 0 {
                nan()
            } else {
                signed(negative, INFINITE_CODE as nat)
            }
        } else {
            signed(negative, round_code(self.magnitude() * pow2(1074), other.magnitude()))
        }
    }

    /// The product with `factor` plus `addend`, rounded once.
    #[verifier::opaque]
    pub open spec fn spec_mul_add(self, factor: Double, addend: Double) -> Double {
        let negative = self.negative() != factor.negative();
        if self.not_a_number() || factor.not_a_number() || addend.not_a_number() {
            nan()
        } else if self.infinite() || factor.infinite() {
            if self.code() == 0 || factor.code() == 0 {
                nan()
            } else if addend.infinite() && addend.negative() != negative {
                nan()
            } else {
                signed(negative, INFINITE_CODE as nat)
            }
        } else if addend.infinite() {
            addend
        } else {
            let sum = self.value() * factor.value() + addend.value() * pow2(1074);
            if sum == 0 {
                signed(negative && addend.negative(), 0)
            } else {
                signed(sum < 0, round_code(abs_int(sum), pow2(1074)))
            }
        }
    }

    /// The rounded square root. The integer root of the scaled magnitude stands
    /// for the exact root, with half a unit for a fraction cut off from it; no
    /// boundary between two roundings lies strictly between two such integers.
    #[verifier::opaque]
    pub open spec fn spec_sqrt(self) -> Double {
        if self.not_a_number() {
            nan()
        } else if self.code() == 0 {
            self
        } else if self.negative() {
            nan()
        } else if self.infinite() {
            self
        } else {
            let square = self.magnitude() * pow2(1074);
            let root = floor_sqrt(square);
            let fraction: nat = if root * root == square {
                0
            } else {
                1
            };
            signed(false, round_code(2 * root + fraction, 2))
        }
    }

    /// The nearest number to an unsigned integer.
    #[verifier::opaque]
    pub open spec fn spec_from_u64(n: u64) -> Double {
        signed(false, round_code(n as nat * pow2(1074), 1))
    }

    /// Position of a number that is not NaN on the number line; both zeros are at 0.
    pub open spec fn ordinal(self) -> int {
        if self.negative() {
            -(self.code() as int)
        } else {
            self.code() as int
        }
    }

    /// `self < other`; false if either is NaN.
    pub open spec fn spec_lt(self, other: Double) -> bool {
        !self.not_a_number() && !other.not_a_number() && self.ordinal() < other.ordinal()
    }

    /// `self <= other`; false if either is NaN.
    pub open spec fn spec_le(self, other: Double) -> bool {
        !self.not_a_number() && !other.not_a_number() && self.ordinal() <= other.ordinal()
    }

    /// Numeric equality; false if either is NaN, and the zeros are equal.
    pub open spec fn spec_same(self, other: Double) -> bool {
        !self.not_a_number() && !other.not_a_number() && self.ordinal() == other.ordinal()
    }

    /// The larger number; the other one if one is NaN.
    pub open spec fn spec_max(self, other: Double) -> Double {
        if self.not_a_number() {
            other
        } else if other.not_a_number() || other.spec_le(self) {
            self
        } else {
            other
        }
    }

    /// The smaller number; the other one if one is NaN.
    pub open spec fn spec_min(self, other: Double) -> Double {
        if self.not_a_number() {
            other
        } else if other.not_a_number() || self.spec_le(other) {
            self
        } else {
            other
        }
    }

    /// Whether the number is neither infinite nor NaN.
    #[verifier::when_used_as_spec(finite)]
    pub fn is_finite(self) -> (r: bool)
        ensures
            r == self.finite(),
    {
        self.bits % SIGN_BIT < INFINITE_CODE
    }

    /// Whether the number is NaN.
    #[verifier::when_used_as_spec(not_a_number)]
    pub fn is_nan(self) -> (r: bool)
        ensures
            r == self.not_a_number(),
    {
        self.bits % SIGN_BIT > INFINITE_CODE
    }

    /// Whether the sign bit is set.
    #[verifier::when_used_as_spec(negative)]
    pub fn is_sign_negative(self) -> (r: bool)
        ensures
            r == self.negative(),
    {
        self.bits >= SIGN_BIT
    }

    /// The negated number.
    #[verifier::when_used_as_spec(spec_neg)]
    pub fn neg(self) -> (r: Double)
        ensures
            r == self.spec_neg(),
    {
        Double::assemble(self.bits < SIGN_BIT, self.bits % SIGN_BIT)
    }

    /// The number without its sign.
    #[verifier::when_used_as_spec(spec_abs)]
    pub fn abs(self) -> (r: Double)
        ensures
            r == self.spec_abs(),
    {
        Double::assemble(false, self.bits % SIGN_BIT)
    }

    /// `self < other`.
    #[verifier::when_used_as_spec(spec_lt)]
    pub fn lt(self, other: Double) -> (r: bool)
        ensures
            r == self.spec_lt(other),
    {
        let a: u64 = self.bits % SIGN_BIT;
        let b: u64 = other.bits % SIGN_BIT;
        if a > INFINITE_CODE || b > INFINITE_CODE {
            false
        } else if self.bits >= SIGN_BIT {
            if other.bits >= SIGN_BIT {
                b < a
            } else {
                a > 0 || b > 0
            }
        } else if other.bits >= SIGN_BIT {
            false
        } else {
            a < b
        }
    }

    /// Numeric equality.
    #[verifier::when_used_as_spec(spec_same)]
    pub fn same(self, other: Double) -> (r: bool)
        ensures
            r == self.spec_same(other),
    {
        let a: u64 = self.bits % SIGN_BIT;
        let b: u64 = other.bits % SIGN_BIT;
        a <= INFINITE_CODE && (self.bits == other.bits || (a == 0 && b == 0))
    }

    /// `self <= other`.
    #[verifier::when_used_as_spec(spec_le)]
    pub fn le(self, other: Double) -> (r: bool)
        ensures
            r == self.spec_le(other),
    {
        self.lt(other) || self.same(other)
    }

    /// `self > other`.
    #[verifier::allow_in_spec]
    pub fn gt(self, other: Double) -> (r: bool)
        returns
            other.spec_lt(self),
    {
        other.lt(self)
    }

    /// `self >= other`.
    #[verifier::allow_in_spec]
    pub fn ge(self, other: Double) -> (r: bool)
        returns
            other.spec_le(self),
    {
        other.le(self)
    }

    /// The larger number.
    #[verifier::when_used_as_spec(spec_max)]
    pub fn max(self, other: Double) -> (r: Double)
        ensures
            r == self.spec_max(other),
    {
        if self.is_nan() {
            other
        } else if other.is_nan() || other.le(self) {
            self
        } else {
            other
        }
    }

    /// The smaller number.
    #[verifier::when_used_as_spec(spec_min)]
    pub fn min(self, other: Double) -> (r: Double)
        ensures
            r == self.spec_min(other),
    {
        if self.is_nan() {
            other
        } else if other.is_nan() || self.le(other) {
            self
        } else {
            other
        }
    }

    /// The rounded sum.
    #[verifier::when_used_as_spec(spec_plus)]
    pub fn plus(self, other: Double) -> (r: Double)
        ensures
            r == self.spec_plus(other),
    {
        proof {
            reveal(Double::spec_plus);
        }
        let a: u64 = self.bits % SIGN_BIT;
        let b: u64 = other.bits % SIGN_BIT;
        if a > INFINITE_CODE || b > INFINITE_CODE {
            return nan();
        }
        if a == INFINITE_CODE {
            if b == INFINITE_CODE && self.bits != other.bits {
                return nan();
            }
            return self;
        }
        if b == INFINITE_CODE {
            return other;
        }
        let (sa, ma, ea): (bool, u64, u32) = self.decode();
        let (sb, mb, eb): (bool, u64, u32) = other.decode();
        let (negative, m, k, sticky): (bool, u128, u32, bool) = exact_sum(
            sa,
            ma as u128,
            ea + GUARD,
            sb,
            mb as u128,
            eb + GUARD,
        );
        let ghost sum = self.value() + other.value();
        proof {
            lemma_pow2_pos(GUARD as nat);
            lemma_scaled(sa, ma as nat, ea as nat, GUARD as nat);
            lemma_scaled(sb, mb as nat, eb as nat, GUARD as nat);
            lemma_scaled_sum(self.value(), other.value(), pow2(GUARD as nat));
        }
        if m == 0 {
            return Double::assemble(sa && sb, 0);
        }
        proof {
            lemma_round_scale(abs_int(sum), 1, pow2(GUARD as nat));
            assert(1 * pow2(k as nat) == pow2(k as nat));
        }
        let code: u64 = round_parts(
            m,
            k,
            sticky,
            Ghost(abs_int(sum) * pow2(GUARD as nat)),
            Ghost(1),
        );
        Double::assemble(negative, code)
    }

    /// The rounded difference.
    #[verifier::when_used_as_spec(spec_minus)]
    pub fn minus(self, other: Double) -> (r: Double)
        ensures
            r == self.spec_minus(other),
    {
        self.plus(other.neg())
    }

    /// The rounded product.
    #[verifier::when_used_as_spec(spec_times)]
    pub fn times(self, other: Double) -> (r: Double)
        ensures
            r == self.spec_times(other),
    {
        proof {
            reveal(Double::spec_times);
        }
        let a: u64 = self.bits % SIGN_BIT;
        let b: u64 = other.bits % SIGN_BIT;
        let negative: bool = (self.bits >= SIGN_BIT) != (other.bits >= SIGN_BIT);
        if a > INFINITE_CODE || b > INFINITE_CODE {
            return nan();
        }
        if a == INFINITE_CODE || b == INFINITE_CODE {
            if a == 0 || b == 0 {
                return nan();
            }
            return Double::assemble(negative, INFINITE_CODE);
        }
        let (_, ma, ea): (bool, u64, u32) = self.decode();
        let (_, mb, eb): (bool, u64, u32) = other.decode();
        proof {
            lemma_product_range(ma as nat, mb as nat);
        }
        let m: u128 = ma as u128 * mb as u128;
        let k: u32 = ea + eb + 1226;
        let ghost product = self.magnitude() * other.magnitude();
        proof {
            lemma_product(ma as nat, ea as nat, mb as nat, eb as nat);
        }
        if m == 0 {
            proof {
                lemma_mul_basics(pow2((ea + eb) as nat) as int);
                lemma_pow2_pos(1074);
                lemma_round_zero(pow2(1074));
            }
            return Double::assemble(negative, 0);
        }
        proof {
            lemma_guard(product);
            lemma_shift_up(m as nat, (ea + eb) as nat, 1226);
            lemma_whole(m as nat, k as nat);
            assert(1 * pow2(k as nat) == pow2(k as nat));
        }
        let code: u64 = round_parts(m, k, false, Ghost(product * pow2(1226)), Ghost(1));
        Double::assemble(negative, code)
    }

    /// The rounded quotient.
    #[verifier::when_used_as_spec(spec_over)]
    pub fn over(self, other: Double) -> (r: Double)
        ensures
            r == self.spec_over(other),
    {
        proof {
            reveal(Double::spec_over);
        }
        let a: u64 = self.bits % SIGN_BIT;
        let b: u64 = other.bits % SIGN_BIT;
        let negative: bool = (self.bits >= SIGN_BIT) != (other.bits >= SIGN_BIT);
        if a > INFINITE_CODE || b > INFINITE_CODE {
            return nan();
        }
        if a == INFINITE_CODE {
            if b == INFINITE_CODE {
                return nan();
            }
            return Double::assemble(negative, INFINITE_CODE);
        }
        if b == INFINITE_CODE {
            return Double::assemble(negative, 0);
        }
        if b == 0 {
            if a == 0 {
                return nan();
            }
            return Double::assemble(negative, INFINITE_CODE);
        }
        let (_, ma, ea): (bool, u64, u32) = self.decode();
        let (_, mb, eb): (bool, u64, u32) = other.decode();
        let ghost den = other.magnitude();
        let ghost num = self.magnitude() * pow2(1074);
        proof {
            lemma_pow2_pos(eb as nat);
            assert(den > 0) by (nonlinear_arith)
                requires
                    den == mb * pow2(eb as nat),
                    mb > 0,
                    pow2(eb as nat) > 0,
            ;
        }
        if ma == 0 {
            proof {
                lemma_mul_basics(pow2(ea as nat) as int);
                lemma_mul_basics(pow2(1074) as int);
                lemma_round_zero(den);
            }
            return Double::assemble(negative, 0);
        }
        let (n, j): (u128, u32) = normalise(ma as u128, ea + 3374);
        let hi: u128 = n * 0x10_0000;
        let m: u128 = hi / mb as u128;
        let k: u32 = j - 20 - eb;
        let sticky: bool = hi % mb as u128 != 0;
        let ghost big = num * pow2(GUARD as nat);
        proof {
            lemma_pow2_pos(GUARD as nat);
            lemma_round_scale(num, den, pow2(GUARD as nat));
            lemma_shift_up(ma as nat, ea as nat, 1074);
            lemma_shift_up(ma as nat, (ea + 1074) as nat, GUARD as nat);
            lemma_normal_power();
            lemma_shift(n as nat, j as nat, 20);
            lemma_quotient(hi as nat, mb as nat, (j - 20) as nat, eb as nat, k as nat);
            assert(m >= 0x40_0000_0000_0000) by (nonlinear_arith)
                requires
                    hi >= 0x2000_0000_0000_0000_0000_0000_0000_0000,
                    0 < mb < 0x20_0000_0000_0000,
                    m == hi / mb as u128,
            ;
        }
        let code: u64 = round_parts(m, k, sticky, Ghost(big), Ghost(den));
        Double::assemble(negative, code)
    }

    /// The product with `factor` plus `addend`, rounded once.
    #[verifier::when_used_as_spec(spec_mul_add)]
    pub fn mul_add(self, factor: Double, addend: Double) -> (r: Double)
        ensures
            r == self.spec_mul_add(factor, addend),
    {
        proof {
            reveal(Double::spec_mul_add);
        }
        let a: u64 = self.bits % SIGN_BIT;
        let b: u64 = factor.bits % SIGN_BIT;
        let c: u64 = addend.bits % SIGN_BIT;
        let negative: bool = (self.bits >= SIGN_BIT) != (factor.bits >= SIGN_BIT);
        if a > INFINITE_CODE || b > INFINITE_CODE || c > INFINITE_CODE {
            return nan();
        }
        if a == INFINITE_CODE || b == INFINITE_CODE {
            if a == 0 || b == 0 || (c == INFINITE_CODE && (addend.bits >= SIGN_BIT) != negative) {
                return nan();
            }
            return Double::assemble(negative, INFINITE_CODE);
        }
        if c == INFINITE_CODE {
            return addend;
        }
        let (sa, ma, ea): (bool, u64, u32) = self.decode();
        let (sb, mb, eb): (bool, u64, u32) = factor.decode();
        let (sc, mc, ec): (bool, u64, u32) = addend.decode();
        proof {
            lemma_product_range(ma as nat, mb as nat);
        }
        let (sign, m, k, sticky): (bool, u128, u32, bool) = exact_sum(
            negative,
            ma as u128 * mb as u128,
            ea + eb + 1226,
            sc,
            mc as u128,
            ec + GUARD,
        );
        let ghost product = self.value() * factor.value();
        let ghost shifted = addend.value() * pow2(1074);
        let ghost sum = product + shifted;
        proof {
            lemma_product(ma as nat, ea as nat, mb as nat, eb as nat);
            lemma_signed_product(self.magnitude() as int, factor.magnitude() as int);
            lemma_scaled(negative, (ma * mb) as nat, (ea + eb) as nat, 1226);
            lemma_scaled(sc, mc as nat, ec as nat, GUARD as nat);
            lemma_pow2_adds(1074, 1226);
            lemma_mul_is_associative(addend.value(), pow2(1074) as int, pow2(1226) as int);
            lemma_pow2_pos(1226);
            lemma_scaled_sum(product, shifted, pow2(1226));
        }
        if m == 0 {
            return Double::assemble(negative && sc, 0);
        }
        proof {
            lemma_guard(abs_int(sum));
            assert(1 * pow2(k as nat) == pow2(k as nat));
        }
        let code: u64 = round_parts(m, k, sticky, Ghost(abs_int(sum) * pow2(1226)), Ghost(1));
        Double::assemble(sign, code)
    }

    /// The nearest number to an unsigned integer.
    #[verifier::when_used_as_spec(spec_from_u64)]
    pub fn from_u64(n: u64) -> (r: Double)
        ensures
            r == Double::spec_from_u64(n),
    {
        proof {
            reveal(Double::spec_from_u64);
        }
        if n == 0 {
            proof {
                lemma_mul_basics(pow2(1074) as int);
                lemma_round_zero(1);
            }
            return zero();
        }
        let ghost num = n as nat * pow2(1074);
        proof {
            lemma_pow2_pos(GUARD as nat);
            lemma_round_scale(num, 1, pow2(GUARD as nat));
            lemma_shift_up(n as nat, 1074, GUARD as nat);
            lemma_whole(n as nat, 3374);
            assert(1 * pow2(3374) == pow2(3374));
        }
        let code: u64 = round_parts(n as u128, 3374, false, Ghost(num * pow2(GUARD as nat)), Ghost(1));
        Double::assemble(false, code)
    }

    /// The rounded square root.
    #[verifier::when_used_as_spec(spec_sqrt)]
    pub fn sqrt(self) -> (r: Double)
        ensures
            r == self.spec_sqrt(),
    {
        proof {
            reveal(Double::spec_sqrt);
        }
        let a: u64 = self.bits % SIGN_BIT;
        if a > INFINITE_CODE {
            return nan();
        }
        if a == 0 {
            return self;
        }
        if self.bits >= SIGN_BIT {
            return nan();
        }
        if a == INFINITE_CODE {
            return self;
        }
        let (_, ma, ea): (bool, u64, u32) = self.decode();
        let (n, j): (u128, u32) = normalise(ma as u128, ea + 1074);
        proof {
            lemma_normal_power();
            lemma_shift(n as nat, j as nat, 20);
            lemma_shift_up(ma as nat, ea as nat, 1074);
        }
        let odd: bool = j % 2 == 1;
        let square: u128 = if odd {
            n * 0x20_0000
        } else {
            n * 0x10_0000
        };
        let g: u32 = if odd {
            (j - 21) / 2
        } else {
            (j - 20) / 2
        };
        let ghost full = self.magnitude() * pow2(1074);
        proof {
            if odd {
                lemma_pow2_unfold((j - 20) as nat);
                assert(n * 0x20_0000 * pow2((j - 21) as nat) == n * 0x10_0000 * pow2((j - 20) as nat)) by (nonlinear_arith)
                    requires
                        pow2((j - 20) as nat) == 2 * pow2((j - 21) as nat),
                ;
            }
            assert(full == square * pow2(2 * g as nat));
        }
        let root: u128 = root_of(square);
        let sticky: bool = root * root != square;
        let ghost exact_root = floor_sqrt(full);
        let ghost fraction: nat = if exact_root * exact_root == full {
            0
        } else {
            1
        };
        let ghost num = 2 * exact_root + fraction;
        proof {
            lemma_root_cut(square as nat, g as nat, root as nat);
            lemma_pow2_pos(GUARD as nat);
            lemma_round_scale(num, 2, pow2(GUARD as nat));
            lemma_root_parts(exact_root, fraction, g as nat);
        }
        let code: u64 = round_parts(root, g + GUARD, sticky, Ghost(num * pow2(GUARD as nat)), Ghost(2));
        Double::assemble(false, code)
    }

    /// The magnitude rounded to an integer, halves away from zero.
    pub open spec fn whole_magnitude(self) -> nat {
        (2 * self.magnitude() + pow2(1074)) / pow2(1075)
    }

    /// The number rounded to an integer, halves away from zero, and clamped to
    /// 64 bits; 0 for NaN.
    pub open spec fn spec_round_to_i64(self) -> i64 {
        if self.not_a_number() {
            0
        } else if self.infinite() || self.whole_magnitude() > i64::MAX {
            if self.negative() {
                i64::MIN
            } else {
                i64::MAX
            }
        } else if self.negative() {
            (-(self.whole_magnitude() as int)) as i64
        } else {
            self.whole_magnitude() as i64
        }
    }

    /// The number rounded to the nearest 64-bit integer.
    #[verifier::when_used_as_spec(spec_round_to_i64)]
    pub fn round_to_i64(self) -> (r: i64)
        ensures
            r == self.spec_round_to_i64(),
    {
        if self.is_nan() {
            return 0;
        }
        let negative: bool = self.bits >= SIGN_BIT;
        if self.is_finite() {
            let whole: u64 = self.round_magnitude();
            if whole <= 0x7fff_ffff_ffff_ffff {
                return if negative {
                    -(whole as i64)
                } else {
                    whole as i64
                };
            }
        }
        if negative {
            i64::MIN
        } else {
            i64::MAX
        }
    }

    fn round_magnitude(self) -> (r: u64)
        requires
            self.finite(),
        ensures
            self.whole_magnitude() <= i64::MAX ==> r == self.whole_magnitude(),
            self.whole_magnitude() > i64::MAX ==> r > i64::MAX,
    {
        let (_, m, e): (bool, u64, u32) = self.decode();
        proof {
            lemma_pow2_unfold(1075);
            lemma_pow2_pos(1074);
        }
        if e >= 1074 {
            let s: u32 = e - 1074;
            proof {
                lemma_shift_up(m as nat, s as nat, 1074);
                lemma_round_whole((m * pow2(s as nat)) as nat, pow2(1074));
            }
            if s >= 11 {
                proof {
                    lemma2_to64();
                    lemma_power_at_most(11, s as nat);
                    assert(m * pow2(s as nat) > 0x7fff_ffff_ffff_ffff) by (nonlinear_arith)
                        requires
                            m >= 0x10_0000_0000_0000,
                            pow2(s as nat) >= 0x800,
                    ;
                }
                return 0xffff_ffff_ffff_ffff;
            }
            let p: u128 = two_to(s);
            proof {
                lemma2_to64();
                lemma_power_at_most(s as nat, 10);
                assert(m * p < 0x1_0000_0000_0000_0000) by (nonlinear_arith)
                    requires
                        m < 0x20_0000_0000_0000,
                        p <= 0x400,
                ;
            }
            (m as u128 * p) as u64
        } else {
            let s: u32 = 1074 - e;
            proof {
                lemma_round_part(m as nat, e as nat, s as nat);
            }
            if s >= 55 {
                proof {
                    lemma2_to64();
                    lemma2_to64_rest();
                    lemma_power_at_most(55, s as nat);
                    lemma_pow2_unfold((s + 1) as nat);
                    lemma_basic_div((2 * m + pow2(s as nat)) as int, pow2((s + 1) as nat) as int);
                }
                return 0;
            }
            let p: u128 = two_to(s);
            proof {
                lemma_pow2_pos(s as nat);
                lemma2_to64();
                lemma2_to64_rest();
                lemma_power_at_most(s as nat, 54);
                lemma_pow2_unfold((s + 1) as nat);
                lemma_div_nonincreasing((2 * m + p) as int, (2 * p) as int);
            }
            ((2 * m as u128 + p) / (2 * p)) as u64
        }
    }

    /// The nearest number to a signed integer.
    pub open spec fn spec_from_i64(n: i64) -> Double {
        if n < 0 {
            Double::spec_from_u64((-n) as u64).spec_neg()
        } else {
            Double::spec_from_u64(n as u64)
        }
    }

    /// The nearest number to a signed integer.
    #[verifier::when_used_as_spec(spec_from_i64)]
    pub fn from_i64(n: i64) -> (r: Double)
        ensures
            r == Double::spec_from_i64(n),
    {
        if n < 0 {
            let m: u64 = if n == i64::MIN {
                0x8000_0000_0000_0000
            } else {
                (-n) as u64
            };
            Double::from_u64(m).neg()
        } else {
            Double::from_u64(n as u64)
        }
    }

    /// The nearest number to a count.
    #[verifier::allow_in_spec]
    pub fn from_usize(n: usize) -> (r: Double)
        returns
            Double::spec_from_u64(n as u64),
    {
        Double::from_u64(n as u64)
    }

    /// The number, or the nearer end of the range if it lies outside.
    pub open spec fn spec_clamp(self, low: Double, high: Double) -> Double {
        if self.spec_lt(low) {
            low
        } else if high.spec_lt(self) {
            high
        } else {
            self
        }
    }

    /// The number, or the nearer end of the range if it lies outside.
    #[verifier::when_used_as_spec(spec_clamp)]
    pub fn clamp(self, low: Double, high: Double) -> (r: Double)
        ensures
            r == self.spec_clamp(low, high),
    {
        if self.lt(low) {
            low
        } else if high.lt(self) {
            high
        } else {
            self
        }
    }

    /// The integer part, clamped to 64 bits; 0 for NaN and for negative numbers.
    pub open spec fn spec_truncate_to_u64(self) -> u64 {
        if self.not_a_number() || self.negative() {
            0
        } else if self.infinite() || self.magnitude() / pow2(1074) > u64::MAX {
            u64::MAX
        } else {
            (self.magnitude() / pow2(1074)) as u64
        }
    }

    /// The integer part, clamped to 64 bits.
    #[verifier::when_used_as_spec(spec_truncate_to_u64)]
    pub fn truncate_to_u64(self) -> (r: u64)
        ensures
            r == self.spec_truncate_to_u64(),
    {
        if self.is_nan() || self.bits >= SIGN_BIT {
            return 0;
        }
        if !self.is_finite() {
            return u64::MAX;
        }
        let (_, m, e): (bool, u64, u32) = self.decode();
        proof {
            lemma_pow2_pos(1074);
        }
        if e >= 1074 {
            let s: u32 = e - 1074;
            proof {
                lemma_shift_up(m as nat, s as nat, 1074);
                lemma_div_by_multiple((m * pow2(s as nat)) as int, pow2(1074) as int);
            }
            if s >= 12 {
                proof {
                    lemma2_to64();
                    lemma_power_at_most(12, s as nat);
                    assert(m * pow2(s as nat) > 0xffff_ffff_ffff_ffff) by (nonlinear_arith)
                        requires
                            m >= 0x10_0000_0000_0000,
                            pow2(s as nat) >= 0x1000,
                    ;
                }
                return u64::MAX;
            }
            let p: u128 = two_to(s);
            proof {
                lemma2_to64();
                lemma_power_at_most(s as nat, 11);
                assert(m * p < 0x1_0000_0000_0000_0000) by (nonlinear_arith)
                    requires
                        m < 0x20_0000_0000_0000,
                        p <= 0x800,
                ;
            }
            (m as u128 * p) as u64
        } else {
            let s: u32 = 1074 - e;
            proof {
                lemma_cut_part(m as nat, e as nat, s as nat);
            }
            if s >= 53 {
                proof {
                    lemma2_to64_rest();
                    lemma_power_at_most(53, s as nat);
                    lemma_basic_div(m as int, pow2(s as nat) as int);
                }
                return 0;
            }
            let p: u128 = two_to(s);
            proof {
                lemma_pow2_pos(s as nat);
                lemma_div_nonincreasing(m as int, p as int);
            }
            (m as u128 / p) as u64
        }
    }

    /// The smallest integer that is at least the number, clamped to 64 bits; 0 for
    /// NaN and for negative numbers.
    pub open spec fn spec_ceil_to_u64(self) -> u64 {
        let whole = self.spec_truncate_to_u64();
        if whole < u64::MAX && self.finite() && !self.negative() && self.magnitude() % pow2(1074) != 0 {
            (whole + 1) as u64
        } else {
            whole
        }
    }

    /// The smallest integer that is at least the number, clamped to 64 bits.
    #[verifier::when_used_as_spec(spec_ceil_to_u64)]
    pub fn ceil_to_u64(self) -> (r: u64)
        ensures
            r == self.spec_ceil_to_u64(),
    {
        let whole: u64 = self.truncate_to_u64();
        if whole == u64::MAX || !self.is_finite() || self.bits >= SIGN_BIT {
            return whole;
        }
        let (_, m, e): (bool, u64, u32) = self.decode();
        proof {
            lemma_pow2_pos(1074);
        }
        if e >= 1074 {
            proof {
                lemma_shift_up(m as nat, (e - 1074) as nat, 1074);
                lemma_mod_multiples_basic((m * pow2((e - 1074) as nat)) as int, pow2(1074) as int);
            }
            return whole;
        }
        let s: u32 = 1074 - e;
        let fraction: bool = if s >= 53 {
            proof {
                lemma2_to64_rest();
                lemma_power_at_most(53, s as nat);
                lemma_small_mod(m as nat, pow2(s as nat));
            }
            m != 0
        } else {
            let p: u128 = two_to(s);
            proof {
                lemma_pow2_pos(s as nat);
            }
            m as u128 % p != 0
        };
        proof {
            lemma_cut_part(m as nat, e as nat, s as nat);
        }
        if fraction {
            whole + 1
        } else {
            whole
        }
    }

    /// The number rounded to an integer, halves away from zero.
    pub open spec fn spec_round(self) -> Double {
        if !self.finite() {
            self
        } else {
            signed(self.negative(), round_code(self.whole_magnitude() * pow2(1074), 1))
        }
    }

    /// The number rounded to an integer, halves away from zero.
    #[verifier::when_used_as_spec(spec_round)]
    pub fn round(self) -> (r: Double)
        ensures
            r == self.spec_round(),
    {
        if !self.is_finite() {
            return self;
        }
        let (negative, m, e): (bool, u64, u32) = self.decode();
        proof {
            lemma_pow2_pos(1074);
        }
        if e >= 1074 {
            proof {
                let s = (e - 1074) as nat;
                lemma_pow2_unfold(1075);
                lemma_shift_up(m as nat, s, 1074);
                lemma_round_whole((m * pow2(s)) as nat, pow2(1074));
                law_rounding_keeps_representable(self);
            }
            return self;
        }
        let whole: u64 = self.round_magnitude();
        proof {
            lemma_whole_small(m as nat, e as nat);
            reveal(Double::spec_from_u64);
        }
        let magnitude: Double = Double::from_u64(whole);
        proof {
            lemma_round_code_range(whole as nat * pow2(1074), 1);
        }
        Double::assemble(negative, magnitude.bits % SIGN_BIT)
    }
}

proof fn lemma_product_range(a: nat, b: nat)
    requires
        a < 0x20_0000_0000_0000,
        b < 0x20_0000_0000_0000,
    ensures
        a * b < 0x400_0000_0000_0000_0000_0000_0000,
{
    assert(a * b < 0x400_0000_0000_0000_0000_0000_0000) by (nonlinear_arith)
        requires
            a < 0x20_0000_0000_0000,
            b < 0x20_0000_0000_0000,
    ;
}

proof fn lemma_product(ma: nat, ea: nat, mb: nat, eb: nat)
    ensures
        (ma * pow2(ea)) * (mb * pow2(eb)) == (ma * mb) * pow2(ea + eb),
{
    lemma_pow2_adds(ea, eb);
    assert((ma * pow2(ea)) * (mb * pow2(eb)) == (ma * mb) * (pow2(ea) * pow2(eb))) by (nonlinear_arith);
}

proof fn lemma_signed_product(a: int, b: int)
    ensures
        (-a) * b == -(a * b),
        a * (-b) == -(a * b),
        (-a) * (-b) == a * b,
{
    assert((-a) * b == -(a * b) && a * (-b) == -(a * b) && (-a) * (-b) == a * b) by (nonlinear_arith);
}

proof fn lemma_shift_up(m: nat, e: nat, g: nat)
    ensures
        (m * pow2(e)) * pow2(g) == m * pow2(e + g),
{
    lemma_pow2_adds(e, g);
    lemma_mul_is_associative(m as int, pow2(e) as int, pow2(g) as int);
}

proof fn lemma_guard(num: nat)
    ensures
        round_code(num * pow2(1226), 1 * pow2(GUARD as nat)) == round_code(num, pow2(1074)),
{
    lemma_pow2_pos(1074);
    lemma_pow2_pos(1226);
    lemma_pow2_adds(1074, 1226);
    lemma_round_scale(num, pow2(1074), pow2(1226));
}

pub proof fn lemma_round_zero(den: nat)
    requires
        den > 0,
    ensures
        round_code(0, den) == 0,
{
    lemma2_to64();
    assert(den * pow2(0) == den) by (nonlinear_arith)
        requires
            pow2(0) == 1,
    ;
    lemma_fundamental_div_mod_converse(0, den as int, 0, 0);
}

proof fn lemma_quotient(hi: nat, mb: nat, j: nat, eb: nat, k: nat)
    requires
        mb > 0,
        j == eb + k,
    ensures
        (hi * pow2(j)) / (mb * pow2(eb) * pow2(k)) == hi / mb,
        ((hi * pow2(j)) % (mb * pow2(eb) * pow2(k)) != 0) == (hi % mb != 0),
{
    lemma_pow2_adds(eb, k);
    lemma_pow2_pos(j);
    let w = pow2(j);
    let q = hi / mb;
    let r = hi % mb;
    lemma_fundamental_div_mod(hi as int, mb as int);
    lemma_mod_pos_bound(hi as int, mb as int);
    lemma_mul_is_associative(mb as int, pow2(eb) as int, pow2(k) as int);
    assert(hi * w == q * (mb * w) + r * w) by (nonlinear_arith)
        requires
            hi == mb * q + r,
    ;
    assert(0 <= r * w < mb * w && ((r * w != 0) == (r != 0))) by (nonlinear_arith)
        requires
            0 <= r < mb,
            w > 0,
    ;
    lemma_fundamental_div_mod_converse((hi * w) as int, (mb * w) as int, q as int, (r * w) as int);
}

/// Integer square root by trial of each bit.
fn root_of(n: u128) -> (r: u128)
    requires
        0x2000_0000_0000_0000_0000_0000_0000_0000 <= n < 0x8000_0000_0000_0000_0000_0000_0000_0000,
    ensures
        r * r <= n < (r + 1) * (r + 1),
        0x40_0000_0000_0000 <= r < 0x1_0000_0000_0000_0000,
{
    let mut r: u128 = 0;
    let mut step: u128 = 0x1_0000_0000_0000_0000;
    proof {
        lemma2_to64();
        assert(is_power(pow2(64)));
    }
    while step > 1
        invariant
            0 < step <= 0x1_0000_0000_0000_0000,
            r + step <= 0x1_0000_0000_0000_0000,
            r * r <= n < (r + step) * (r + step),
            step == 1 || step % 2 == 0,
            is_power(step as nat),
        decreases step,
    {
        proof {
            lemma_half_power(step as nat);
        }
        let half: u128 = step / 2;
        let candidate: u128 = r + half;
        assert(candidate * candidate <= 0x1_0000_0000_0000_0000 * 0xffff_ffff_ffff_ffff) by (nonlinear_arith)
            requires
                0 <= candidate < 0x1_0000_0000_0000_0000,
        ;
        assert(r + step == candidate + half);
        if candidate * candidate <= n {
            r = candidate;
        }
        step = half;
    }
    assert(r >= 0x40_0000_0000_0000) by (nonlinear_arith)
        requires
            n < (r + 1) * (r + 1),
            n >= 0x2000_0000_0000_0000_0000_0000_0000_0000,
    ;
    r
}

spec fn is_power(x: nat) -> bool {
    exists|k: nat| x == #[trigger] pow2(k)
}

proof fn lemma_half_power(x: nat)
    requires
        is_power(x),
        x > 1,
    ensures
        x % 2 == 0,
        is_power(x / 2),
        x / 2 == 1 || (x / 2) % 2 == 0,
{
    let k = choose|k: nat| x == #[trigger] pow2(k);
    lemma2_to64();
    lemma_pow2_unfold(k);
    let h = (k - 1) as nat;
    assert(x / 2 == pow2(h));
    if h > 0 {
        lemma_pow2_unfold(h);
    }
}

proof fn lemma_floor_sqrt(n: nat, r: nat)
    requires
        r * r <= n < (r + 1) * (r + 1),
    ensures
        floor_sqrt(n) == r,
{
    let f = floor_sqrt(n);
    assert(f * f <= n < (f + 1) * (f + 1));
    assert(f == r) by (nonlinear_arith)
        requires
            r * r <= n < (r + 1) * (r + 1),
            f * f <= n < (f + 1) * (f + 1),
    ;
}

pub proof fn lemma_floor_sqrt_exists(n: nat)
    ensures
        floor_sqrt(n) * floor_sqrt(n) <= n < (floor_sqrt(n) + 1) * (floor_sqrt(n) + 1),
    decreases n,
{
    if n == 0 {
        assert(0nat * 0nat <= n < (0nat + 1) * (0nat + 1)) by (nonlinear_arith)
            requires
                n == 0,
        ;
        lemma_floor_sqrt(0, 0);
    } else {
        let p = (n - 1) as nat;
        lemma_floor_sqrt_exists(p);
        let r = floor_sqrt(p);
        if n < (r + 1) * (r + 1) {
            lemma_floor_sqrt(n, r);
        } else {
            let t = r + 1;
            assert(t * t <= n < (t + 1) * (t + 1)) by (nonlinear_arith)
                requires
                    n >= t * t,
                    n - 1 < t * t,
            ;
            lemma_floor_sqrt(n, t);
        }
    }
}

/// Taking the root commutes with cutting an even number of low bits.
proof fn lemma_root_cut(n: nat, g: nat, m: nat)
    requires
        m * m <= n < (m + 1) * (m + 1),
    ensures
        ({
            let full = n * pow2(2 * g);
            let j = floor_sqrt(full);
            &&& j / pow2(g) == m
            &&& (j % pow2(g) != 0 || j * j != full) == (m * m != n)
        }),
{
    let w = pow2(g);
    let full = n * pow2(2 * g);
    let j = floor_sqrt(full);
    lemma_floor_sqrt_exists(full);
    lemma_pow2_pos(g);
    lemma_pow2_adds(g, g);
    assert(pow2(2 * g) == w * w);
    let q = j / w;
    let r = j % w;
    lemma_fundamental_div_mod(j as int, w as int);
    lemma_mod_pos_bound(j as int, w as int);
    let a = q * w;
    assert(j == a + r) by (nonlinear_arith)
        requires
            j == w * q + r,
            a == q * w,
    ;
    assert(full == n * (w * w));
    assert(q * q <= n) by {
        assert(a * a <= j * j) by (nonlinear_arith)
            requires
                0 <= a <= j,
        ;
        assert(a * a == (q * q) * (w * w)) by (nonlinear_arith)
            requires
                a == q * w,
        ;
        assert(q * q <= n) by (nonlinear_arith)
            requires
                (q * q) * (w * w) <= n * (w * w),
                w > 0,
        ;
    }
    assert(n < (q + 1) * (q + 1)) by {
        let b = (q + 1) * w;
        assert(b == a + w) by (nonlinear_arith)
            requires
                a == q * w,
                b == (q + 1) * w,
        ;
        assert((j + 1) * (j + 1) <= b * b) by (nonlinear_arith)
            requires
                0 <= j + 1 <= b,
        ;
        assert(b * b == ((q + 1) * (q + 1)) * (w * w)) by (nonlinear_arith)
            requires
                b == (q + 1) * w,
        ;
        assert(n < (q + 1) * (q + 1)) by (nonlinear_arith)
            requires
                n * (w * w) < ((q + 1) * (q + 1)) * (w * w),
                w > 0,
        ;
    }
    assert(q == m) by (nonlinear_arith)
        requires
            m * m <= n < (m + 1) * (m + 1),
            q * q <= n < (q + 1) * (q + 1),
    ;
    if m * m == n {
        let c = m * w;
        assert(c * c == full && full < (c + 1) * (c + 1)) by (nonlinear_arith)
            requires
                c == m * w,
                full == n * (w * w),
                m * m == n,
        ;
        lemma_floor_sqrt(full, c);
        assert(r == 0);
    } else {
        if r == 0 && j * j == full {
            assert(m * m == n) by (nonlinear_arith)
                requires
                    j == m * w,
                    j * j == n * (w * w),
                    w > 0,
            ;
        }
    }
}

/// The doubled root with its half unit, cut at bit `g` of the root.
proof fn lemma_root_parts(root: nat, fraction: nat, g: nat)
    requires
        fraction <= 1,
    ensures
        ({
            let num = (2 * root + fraction) * pow2(GUARD as nat);
            let den = 2 * pow2(g + GUARD as nat);
            &&& num / den == root / pow2(g)
            &&& (num % den != 0) == (root % pow2(g) != 0 || fraction != 0)
        }),
{
    let w = pow2(g);
    let b = pow2(GUARD as nat);
    lemma_pow2_pos(g);
    lemma_pow2_pos(GUARD as nat);
    lemma_pow2_adds(g, GUARD as nat);
    let q = root / w;
    let r = root % w;
    lemma_fundamental_div_mod(root as int, w as int);
    lemma_mod_pos_bound(root as int, w as int);
    let num = (2 * root + fraction) * b;
    let den = 2 * (w * b);
    let rest = (2 * r + fraction) * b;
    assert(num == q * den + rest) by (nonlinear_arith)
        requires
            num == (2 * root + fraction) * b,
            den == 2 * (w * b),
            rest == (2 * r + fraction) * b,
            root == w * q + r,
    ;
    assert(0 <= rest < den && ((rest != 0) == (r != 0 || fraction != 0))) by (nonlinear_arith)
        requires
            rest == (2 * r + fraction) * b,
            den == 2 * (w * b),
            0 <= r < w,
            0 <= fraction <= 1,
            b > 0,
    ;
    lemma_fundamental_div_mod_converse(num as int, den as int, q as int, rest as int);
}

proof fn lemma_round_whole(n: nat, w: nat)
    requires
        w > 0,
    ensures
        (2 * (n * w) + w) / (2 * w) == n,
{
    assert(2 * (n * w) + w == n * (2 * w) + w) by (nonlinear_arith);
    lemma_fundamental_div_mod_converse((2 * (n * w) + w) as int, (2 * w) as int, n as int, w as int);
}

proof fn lemma_round_part(m: nat, e: nat, s: nat)
    requires
        e + s == 1074,
    ensures
        (2 * (m * pow2(e)) + pow2(1074)) / pow2(1075) == (2 * m + pow2(s)) / pow2(s + 1),
{
    let w = pow2(e);
    lemma_pow2_pos(e);
    lemma_pow2_pos(s + 1);
    lemma_pow2_adds(e, s);
    lemma_pow2_adds(e, s + 1);
    let x = 2 * m + pow2(s);
    assert(2 * (m * w) + w * pow2(s) == x * w) by (nonlinear_arith)
        requires
            x == 2 * m + pow2(s),
    ;
    lemma_mul_is_commutative(pow2(s + 1) as int, w as int);
    lemma_div_multiples_vanish_quotient(w as int, x as int, pow2(s + 1) as int);
    lemma_mul_is_commutative(x as int, w as int);
}

proof fn lemma_code_orders(a: Double, b: Double)
    requires
        a.finite(),
        b.finite(),
        a.code() < b.code(),
    ensures
        a.magnitude() < b.magnitude(),
{
    let ea = a.exponent();
    let eb = b.exponent();
    let ma = a.significand();
    let mb = b.significand();
    lemma_pow2_pos(ea);
    if ea == eb {
        assert(ma < mb);
        assert(ma * pow2(ea) < mb * pow2(ea)) by (nonlinear_arith)
            requires
                ma < mb,
                pow2(ea) > 0,
        ;
    } else {
        lemma_pow2_adds(ea, (eb - ea) as nat);
        lemma_power_at_most(1, (eb - ea) as nat);
        lemma2_to64();
        assert(ma * pow2(ea) < mb * pow2(eb)) by (nonlinear_arith)
            requires
                ma < 0x20_0000_0000_0000,
                mb >= 0x10_0000_0000_0000,
                pow2(eb) == pow2(ea) * pow2((eb - ea) as nat),
                pow2((eb - ea) as nat) >= 2,
                pow2(ea) > 0,
        ;
    }
}

/// The number line order is the order of the exact values.
pub proof fn law_order_is_numeric(a: Double, b: Double)
    requires
        a.is_finite(),
        b.is_finite(),
    ensures
        a.lt(b) == (a.value() < b.value()),
        a.le(b) == (a.value() <= b.value()),
        a.same(b) == (a.value() == b.value()),
{
    if a.code() < b.code() {
        lemma_code_orders(a, b);
    } else if b.code() < a.code() {
        lemma_code_orders(b, a);
    }
    lemma_zero_magnitude(a);
    lemma_zero_magnitude(b);
}

pub proof fn lemma_zero_magnitude(a: Double)
    requires
        a.finite(),
    ensures
        (a.magnitude() == 0) == (a.code() == 0),
{
    lemma_pow2_pos(a.exponent());
    let m = a.significand();
    let p = pow2(a.exponent());
    assert((m * p == 0) == (m == 0)) by (nonlinear_arith)
        requires
            p > 0,
    ;
}

/// Addition commutes.
pub proof fn law_plus_commutes(a: Double, b: Double)
    ensures
        a.plus(b) == b.plus(a),
{
    reveal(Double::spec_plus);
    lemma_same_infinity(a, b);
}

proof fn lemma_same_infinity(a: Double, b: Double)
    ensures
        a.infinite() && b.infinite() && a.negative() == b.negative() ==> a == b,
{
}

/// Multiplication commutes.
pub proof fn law_times_commutes(a: Double, b: Double)
    ensures
        a.times(b) == b.times(a),
{
    reveal(Double::spec_times);
    lemma_mul_is_commutative(a.magnitude() as int, b.magnitude() as int);
}

proof fn lemma_cut_part(m: nat, e: nat, s: nat)
    requires
        e + s == 1074,
    ensures
        (m * pow2(e)) / pow2(1074) == m / pow2(s),
        ((m * pow2(e)) % pow2(1074) != 0) == (m % pow2(s) != 0),
{
    let w = pow2(e);
    let p = pow2(s);
    lemma_pow2_pos(e);
    lemma_pow2_pos(s);
    lemma_pow2_adds(s, e);
    let q = m / p;
    let r = m % p;
    lemma_fundamental_div_mod(m as int, p as int);
    lemma_mod_pos_bound(m as int, p as int);
    assert(m * w == q * (p * w) + r * w) by (nonlinear_arith)
        requires
            m == p * q + r,
    ;
    assert(0 <= r * w < p * w && ((r * w != 0) == (r != 0))) by (nonlinear_arith)
        requires
            0 <= r < p,
            w > 0,
    ;
    lemma_fundamental_div_mod_converse((m * w) as int, (p * w) as int, q as int, (r * w) as int);
}

proof fn lemma_whole_small(m: nat, e: nat)
    requires
        m < 0x20_0000_0000_0000,
        e < 1074,
    ensures
        (2 * (m * pow2(e)) + pow2(1074)) / pow2(1075) <= i64::MAX,
{
    let s = (1074 - e) as nat;
    lemma_round_part(m, e, s);
    lemma_pow2_pos(s);
    lemma_pow2_unfold(s + 1);
    let p = pow2(s);
    let x = 2 * m + p;
    let q = x / (2 * p);
    lemma_fundamental_div_mod(x as int, (2 * p) as int);
    lemma_mod_pos_bound(x as int, (2 * p) as int);
    assert(q <= m + 1) by (nonlinear_arith)
        requires
            2 * p * q <= x,
            x == 2 * m + p,
            p > 0,
    ;
}

proof fn lemma_round_code_range(num: nat, den: nat)
    ensures
        round_code(num, den) <= INFINITE_CODE,
{
}

/// A magnitude that a number has rounds to that number.
pub proof fn law_rounding_keeps_representable(d: Double)
    requires
        d.is_finite(),
    ensures
        round_code(d.magnitude(), 1) == d.code(),
{
    let m = d.significand();
    let e = d.exponent();
    let mag = d.magnitude();
    lemma2_to64();
    lemma_pow2_pos(e);
    assert(1 * pow2(e) == pow2(e));
    assert(mag < 1 * pow2(e) * 0x20_0000_0000_0000) by (nonlinear_arith)
        requires
            mag == m * pow2(e),
            m < 0x20_0000_0000_0000,
            pow2(e) > 0,
    ;
    if e > 0 {
        assert(mag >= 1 * pow2(e) * 0x10_0000_0000_0000) by (nonlinear_arith)
            requires
                mag == m * pow2(e),
                m >= 0x10_0000_0000_0000,
        ;
    }
    lemma_ulp_exponent(mag, 1, e);
    lemma_whole(m, e);
}

/// The nearest integer is nearest.
proof fn lemma_half_even_is_nearest(num: nat, w: nat, k: nat)
    requires
        w > 0,
    ensures
        abs_int(num - divide_half_even(num, w) * w) <= abs_int(num - k * w),
{
    let q = num / w;
    let r = num % w;
    let n = divide_half_even(num, w);
    lemma_fundamental_div_mod(num as int, w as int);
    lemma_mod_pos_bound(num as int, w as int);
    assert(num - n * w == if n == q {
        r as int
    } else {
        r - w
    }) by (nonlinear_arith)
        requires
            num == w * q + r,
            n == q || n == q + 1,
    ;
    if k <= q {
        assert(num - k * w >= r) by (nonlinear_arith)
            requires
                num == w * q + r,
                k <= q,
                w > 0,
        ;
    } else {
        assert(num - k * w <= r - w) by (nonlinear_arith)
            requires
                num == w * q + r,
                k >= q + 1,
                w > 0,
        ;
    }
}

/// A code that rounding gives stands for a multiple of the unit in the last place.
pub proof fn lemma_code_magnitude(d: Double, n: nat, e: nat)
    requires
        d.finite(),
        d.code() == n + e * 0x10_0000_0000_0000,
        n <= 0x20_0000_0000_0000,
        e > 0 ==> n >= 0x10_0000_0000_0000,
    ensures
        d.magnitude() == n * pow2(e),
{
    lemma2_to64();
    if n == 0x20_0000_0000_0000 {
        lemma_pow2_unfold(e + 1);
        assert(d.exponent() == e + 1);
        assert(d.significand() == 0x10_0000_0000_0000);
        assert(0x10_0000_0000_0000 * pow2(e + 1) == n * pow2(e)) by (nonlinear_arith)
            requires
                pow2(e + 1) == 2 * pow2(e),
                n == 0x20_0000_0000_0000,
        ;
    } else if n >= 0x10_0000_0000_0000 {
        assert(d.code() / 0x10_0000_0000_0000 == e + 1);
        assert(d.exponent() == e);
        assert(d.significand() == n);
    } else {
        assert(e == 0);
        assert(d.exponent() == 0);
        assert(d.significand() == n);
    }
}

/// Rounding is to nearest: no finite number is closer to the exact quotient than the
/// one that it is rounded to.
pub proof fn law_rounding_is_nearest(num: nat, den: nat, d: Double, other: Double)
    requires
        den > 0,
        d.is_finite(),
        d.code() == round_code(num, den),
        other.is_finite(),
    ensures
        abs_int(num - den * d.magnitude()) <= abs_int(num - den * other.magnitude()),
{
    let e = ulp_exponent(num, den);
    let u = pow2(e);
    let w = den * u;
    let n = divide_half_even(num, w);
    lemma_ulp_exponent_bounds(num, den);
    lemma_pow2_pos(e);
    assert(w > 0) by (nonlinear_arith)
        requires
            w == den * u,
            den > 0,
            u > 0,
    ;
    lemma_fundamental_div_mod(num as int, w as int);
    lemma_mod_pos_bound(num as int, w as int);
    assert(num / w < 0x20_0000_0000_0000) by (nonlinear_arith)
        requires
            num < w * 0x20_0000_0000_0000,
            num == w * (num / w) + num % w,
            num % w >= 0,
            w > 0,
    ;
    if e > 0 {
        assert(num / w >= 0x10_0000_0000_0000) by (nonlinear_arith)
            requires
                num >= w * 0x10_0000_0000_0000,
                num == w * (num / w) + num % w,
                num % w < w,
                w > 0,
        ;
    }
    lemma_code_magnitude(d, n, e);
    assert(den * (n * u) == n * w) by (nonlinear_arith)
        requires
            w == den * u,
    ;
    let m = other.significand();
    let f = other.exponent();
    if f >= e {
        lemma_pow2_adds((f - e) as nat, e);
        let k = m * pow2((f - e) as nat);
        lemma_half_even_is_nearest(num, w, k);
        assert(den * (m * pow2(f)) == k * w) by (nonlinear_arith)
            requires
                k == m * pow2((f - e) as nat),
                pow2(f) == pow2((f - e) as nat) * u,
                w == den * u,
        ;
    } else {
        lemma_half_even_is_nearest(num, w, 0x10_0000_0000_0000);
        lemma_pow2_adds(f, (e - f) as nat);
        lemma_power_at_most(1, (e - f) as nat);
        lemma2_to64();
        lemma_pow2_pos(f);
        let v = pow2(f);
        assert(m < 0x20_0000_0000_0000);
        assert(den * (m * v) <= 0x10_0000_0000_0000 * w) by (nonlinear_arith)
            requires
                m < 0x20_0000_0000_0000,
                u == v * pow2((e - f) as nat),
                pow2((e - f) as nat) >= 2,
                w == den * u,
                v > 0,
                den > 0,
        ;
        assert(num >= 0x10_0000_0000_0000 * w) by (nonlinear_arith)
            requires
                num >= w * 0x10_0000_0000_0000,
        ;
    }
}

/// A quotient of at most `2^k` rounds to a finite number.
pub proof fn lemma_round_is_finite(num: nat, den: nat, k: nat)
    requires
        den > 0,
        num <= den * pow2(k),
        k <= 2000,
    ensures
        round_code(num, den) < INFINITE_CODE,
{
    let e = ulp_exponent(num, den);
    let w = den * pow2(e);
    lemma_ulp_exponent_bounds(num, den);
    lemma_pow2_pos(e);
    assert(w > 0) by (nonlinear_arith)
        requires
            w == den * pow2(e),
            den > 0,
            pow2(e) > 0,
    ;
    lemma_fundamental_div_mod(num as int, w as int);
    lemma_mod_pos_bound(num as int, w as int);
    assert(num / w < 0x20_0000_0000_0000) by (nonlinear_arith)
        requires
            num < w * 0x20_0000_0000_0000,
            num == w * (num / w) + num % w,
            num % w >= 0,
            w > 0,
    ;
    if e > 2000 {
        lemma_power_at_most(k, e);
        lemma_pow2_pos(k);
        assert(den * pow2(k) < w * 0x10_0000_0000_0000) by (nonlinear_arith)
            requires
                w == den * pow2(e),
                pow2(k) <= pow2(e),
                den > 0,
                pow2(k) > 0,
        ;
    }
}

/// A whole number of at least one keeps a magnitude of at least one.
proof fn lemma_whole_is_large(n: u64)
    requires
        n > 0,
    ensures
        Double::from_u64(n).finite(),
        !Double::from_u64(n).negative(),
        Double::from_u64(n).magnitude() >= pow2(1074),
{
    reveal(Double::spec_from_u64);
    let num = n as nat * pow2(1074);
    let r = Double::from_u64(n);
    lemma2_to64();
    lemma2_to64_rest();
    lemma_pow2_pos(1074);
    lemma_pow2_adds(64, 1074);
    assert(num <= 1 * pow2(1138)) by (nonlinear_arith)
        requires
            num == n as nat * pow2(1074),
            n <= 0xffff_ffff_ffff_ffff,
            pow2(1138) == 0x1_0000_0000_0000_0000 * pow2(1074),
    ;
    lemma_round_is_finite(num, 1, 1138);
    let unit = one();
    assert(unit.code() == 0x3ff0_0000_0000_0000);
    assert(unit.exponent() == 1022);
    assert(unit.significand() == 0x10_0000_0000_0000);
    lemma_pow2_adds(52, 1022);
    law_rounding_is_nearest(num, 1, r, unit);
    assert(num >= pow2(1074)) by (nonlinear_arith)
        requires
            num == n as nat * pow2(1074),
            n >= 1,
    ;
}

/// A finite number less an equal one is zero.
pub proof fn lemma_minus_equal(a: Double, b: Double)
    requires
        a.finite(),
        b.finite(),
        a.value() == b.value(),
    ensures
        a.minus(b).code() == 0,
        a == b ==> a.minus(b) == zero(),
{
    reveal(Double::spec_plus);
    assert(b.spec_neg().code() == b.code());
    assert(b.spec_neg().magnitude() == b.magnitude());
}

/// Zero times a finite number is zero.
pub proof fn lemma_times_zero(z: Double, a: Double)
    requires
        z.code() == 0,
        a.finite(),
    ensures
        z.times(a).code() == 0,
        a.times(z).code() == 0,
{
    reveal(Double::spec_times);
    lemma_pow2_pos(1074);
    lemma_round_zero(pow2(1074));
    lemma_zero_magnitude(z);
    assert(z.magnitude() * a.magnitude() == 0) by (nonlinear_arith)
        requires
            z.magnitude() == 0,
    ;
    assert(a.magnitude() * z.magnitude() == 0) by (nonlinear_arith)
        requires
            z.magnitude() == 0,
    ;
}

/// Adding zero keeps a number.
pub proof fn lemma_plus_zero(a: Double, z: Double)
    requires
        a.finite(),
        z.code() == 0,
    ensures
        a.code() != 0 ==> a.plus(z) == a,
        a.code() == 0 ==> a.plus(z).code() == 0,
        a == zero() && z == zero() ==> a.plus(z) == zero(),
{
    reveal(Double::spec_plus);
    lemma_zero_magnitude(z);
    lemma_zero_magnitude(a);
    if a.code() != 0 {
        law_rounding_keeps_representable(a);
    }
}

/// Both zeros are the same number.
pub proof fn lemma_same_as_zero(a: Double, b: Double)
    requires
        a.finite(),
        b.finite(),
    ensures
        b.code() == 0 ==> a.same(b) == (a.code() == 0),
        a == b ==> a.same(b),
        a.same(b) == (a.value() == b.value()),
{
    law_order_is_numeric(a, b);
    lemma_zero_magnitude(a);
    lemma_zero_magnitude(b);
}

/// Zero over a positive whole number is zero.
pub proof fn lemma_zero_over_whole(n: u64)
    requires
        n > 0,
    ensures
        zero().over(Double::from_u64(n)) == zero(),
{
    reveal(Double::spec_over);
    let d = Double::from_u64(n);
    let z = zero();
    lemma_whole_is_large(n);
    lemma_pow2_pos(1074);
    lemma_zero_magnitude(d);
    assert(z.code() == 0);
    lemma_zero_magnitude(z);
    assert(z.magnitude() * pow2(1074) == 0) by (nonlinear_arith)
        requires
            z.magnitude() == 0,
    ;
    lemma_round_zero(d.magnitude());
}

/// A rounded quotient is at most twice the exact one.
proof fn lemma_round_at_most_twice(num: nat, den: nat, d: Double)
    requires
        den > 0,
        d.finite(),
        d.code() == round_code(num, den),
    ensures
        den * d.magnitude() <= 2 * num,
{
    let z = zero();
    assert(z.code() == 0);
    lemma_zero_magnitude(z);
    law_rounding_is_nearest(num, den, d, z);
    assert(den * z.magnitude() == 0) by (nonlinear_arith)
        requires
            z.magnitude() == 0,
    ;
}

/// A ratio of two whole numbers is finite and not negative.
pub proof fn lemma_ratio_is_finite(k: u64, n: u64)
    requires
        n > 0,
    ensures
        Double::from_u64(k).over(Double::from_u64(n)).finite(),
        !Double::from_u64(k).over(Double::from_u64(n)).negative(),
        Double::from_u64(k).over(Double::from_u64(n)).magnitude() <= pow2(1140),
{
    let a = Double::from_u64(k);
    let b = Double::from_u64(n);
    let r = a.over(b);
    let g = pow2(1074);
    lemma_whole_is_large(n);
    reveal(Double::spec_from_u64);
    reveal(Double::spec_over);
    lemma2_to64();
    lemma_pow2_pos(1074);
    lemma_pow2_adds(64, 1074);
    lemma_pow2_unfold(1139);
    lemma_pow2_unfold(1140);
    let num = k as nat * g;
    assert(num <= 1 * pow2(1138)) by (nonlinear_arith)
        requires
            num == k as nat * g,
            k <= 0xffff_ffff_ffff_ffff,
            pow2(1138) == 0x1_0000_0000_0000_0000 * g,
    ;
    lemma_round_is_finite(num, 1, 1138);
    lemma_round_at_most_twice(num, 1, a);
    lemma_zero_magnitude(b);
    let m = a.magnitude();
    let den = b.magnitude();
    assert(m <= pow2(1139));
    assert(m * g <= den * pow2(1139)) by (nonlinear_arith)
        requires
            m <= pow2(1139),
            den >= g,
            g > 0,
    ;
    lemma_round_is_finite(m * g, den, 1139);
    lemma_round_at_most_twice(m * g, den, r);
    assert(r.magnitude() <= pow2(1140)) by (nonlinear_arith)
        requires
            den * r.magnitude() <= 2 * (m * g),
            m * g <= den * pow2(1139),
            pow2(1140) == 2 * pow2(1139),
            den > 0,
    ;
}

/// The difference of two numbers of moderate size is finite.
pub proof fn lemma_difference_is_finite(a: Double, b: Double)
    requires
        a.finite(),
        b.finite(),
        a.magnitude() <= pow2(1140),
        b.magnitude() <= pow2(1140),
    ensures
        a.minus(b).finite(),
{
    reveal(Double::spec_plus);
    assert(b.spec_neg().code() == b.code());
    assert(b.spec_neg().magnitude() == b.magnitude());
    lemma_pow2_unfold(1141);
    let sum = a.value() + b.spec_neg().value();
    lemma_round_is_finite(abs_int(sum), 1, 1141);
}

/// One is the whole number one.
pub proof fn lemma_one()
    ensures
        one() == Double::from_u64(1),
        one().finite(),
        !one().negative(),
        one().magnitude() == pow2(1074),
{
    reveal(Double::spec_from_u64);
    let unit = one();
    lemma2_to64();
    lemma2_to64_rest();
    lemma_pow2_adds(52, 1022);
    assert(unit.code() == 0x3ff0_0000_0000_0000);
    assert(unit.exponent() == 1022);
    assert(unit.significand() == 0x10_0000_0000_0000);
    law_rounding_keeps_representable(unit);
}

/// Zero is the whole number zero.
pub proof fn lemma_zero()
    ensures
        zero() == Double::from_u64(0),
        zero().code() == 0,
{
    reveal(Double::spec_from_u64);
    lemma_round_zero(1);
    assert(0nat * pow2(1074) == 0) by (nonlinear_arith);
}

/// Up to `2^53` units of a power of two are exact.
pub proof fn lemma_units_are_exact(n: nat, s: nat, d: Double)
    requires
        n <= 0x20_0000_0000_0000,
        s <= 1074,
        d == signed(false, round_code(n * pow2(s), 1)),
    ensures
        d.finite(),
        !d.negative(),
        d.magnitude() == n * pow2(s),
{
    let g = pow2(s);
    let num = n * g;
    lemma2_to64();
    lemma2_to64_rest();
    lemma_pow2_pos(s);
    lemma_pow2_adds(53, s);
    assert(num <= 1 * pow2(s + 53)) by (nonlinear_arith)
        requires
            num == n * g,
            n <= 0x20_0000_0000_0000,
            pow2(s + 53) == 0x20_0000_0000_0000 * g,
    ;
    lemma_round_is_finite(num, 1, s + 53);
    let e = ulp_exponent(num, 1);
    let u = pow2(e);
    lemma_ulp_exponent_bounds(num, 1);
    assert(1 * u == u);
    lemma_pow2_pos(e);
    // the unit in the last place divides the number
    let q = if e <= s {
        lemma_pow2_adds((s - e) as nat, e);
        n * pow2((s - e) as nat)
    } else {
        lemma_power_at_most(s + 1, e);
        lemma_pow2_unfold(s + 1);
        assert(n == 0x20_0000_0000_0000) by (nonlinear_arith)
            requires
                num >= u * 0x10_0000_0000_0000,
                u >= 2 * g,
                num == n * g,
                n <= 0x20_0000_0000_0000,
                g > 0,
        ;
        if e > s + 1 {
            lemma_power_at_most(s + 2, e);
            lemma_pow2_unfold(s + 2);
            assert(false) by (nonlinear_arith)
                requires
                    num >= u * 0x10_0000_0000_0000,
                    u >= 4 * g,
                    num == n * g,
                    n == 0x20_0000_0000_0000,
                    g > 0,
            ;
        }
        0x10_0000_0000_0000
    };
    assert(num == q * u) by (nonlinear_arith)
        requires
            num == n * g,
            e <= s ==> g == pow2((s - e) as nat) * u && q == n * pow2((s - e) as nat),
            e > s ==> u == 2 * g && q == 0x10_0000_0000_0000 && n == 0x20_0000_0000_0000,
    ;
    lemma_fundamental_div_mod_converse(num as int, u as int, q as int, 0);
    assert(divide_half_even(num, u) == q);
    assert(q < 0x20_0000_0000_0000) by (nonlinear_arith)
        requires
            num < u * 0x20_0000_0000_0000,
            num == q * u,
            u > 0,
    ;
    if e > 0 {
        assert(q >= 0x10_0000_0000_0000) by (nonlinear_arith)
            requires
                num >= u * 0x10_0000_0000_0000,
                num == q * u,
                u > 0,
        ;
    }
    lemma_code_magnitude(d, q, e);
}

/// Whole numbers up to `2^53` are exact.
pub proof fn lemma_whole_is_exact(n: u64)
    requires
        n <= 0x20_0000_0000_0000,
    ensures
        Double::from_u64(n).finite(),
        !Double::from_u64(n).negative(),
        Double::from_u64(n).magnitude() == n * pow2(1074),
{
    reveal(Double::spec_from_u64);
    lemma_units_are_exact(n as nat, 1074, Double::from_u64(n));
}

/// The number of halves.
pub open spec fn halves(h: nat) -> Double {
    signed(false, round_code(h * pow2(1073), 1))
}

/// Halves add exactly while their number stays within `2^53`.
pub proof fn lemma_halves_add(h: nat, k: nat)
    requires
        h + k <= 0x20_0000_0000_0000,
    ensures
        halves(h).plus(halves(k)) == halves(h + k),
{
    lemma_units_are_exact(h, 1073, halves(h));
    lemma_units_are_exact(k, 1073, halves(k));
    reveal(Double::spec_plus);
    let g = pow2(1073);
    lemma_pow2_pos(1073);
    assert(h * g + k * g == (h + k) * g) by (nonlinear_arith);
    if h + k == 0 {
        lemma_round_zero(1);
        assert(0 * g == 0);
    } else {
        assert((h + k) * g > 0) by (nonlinear_arith)
            requires
                h + k > 0,
                g > 0,
        ;
    }
}

/// Zero, one half and one as halves.
pub proof fn lemma_small_halves()
    ensures
        halves(0) == zero(),
        halves(1) == (Double { bits: 0x3fe0_0000_0000_0000 }),
        halves(2) == one(),
{
    lemma_pow2_unfold(1074);
    lemma_one();
    reveal(Double::spec_from_u64);
    lemma_round_zero(1);
    assert(0nat * pow2(1073) == 0) by (nonlinear_arith);
    let h = Double { bits: 0x3fe0_0000_0000_0000 };
    lemma2_to64();
    lemma2_to64_rest();
    lemma_pow2_adds(52, 1021);
    assert(h.code() == 0x3fe0_0000_0000_0000);
    assert(h.exponent() == 1021);
    assert(h.significand() == 0x10_0000_0000_0000);
    law_rounding_keeps_representable(h);
    assert(1nat * pow2(1073) == pow2(1073)) by (nonlinear_arith);
    assert(2nat * pow2(1073) == 1nat * pow2(1074)) by (nonlinear_arith)
        requires
            pow2(1074) == 2 * pow2(1073),
    ;
}

/// A number of halves over a whole number is the rounded exact quotient, and at most
/// one where the halves are no more than twice the whole number.
pub proof fn lemma_halves_over_whole(h: nat, n: u64)
    requires
        h <= 0x20_0000_0000_0000,
        0 < n <= 0x20_0000_0000_0000,
    ensures
        halves(h).over(Double::from_u64(n)) == signed(false, round_code(h * pow2(1073), n as nat)),
        h <= 2 * n ==> halves(h).over(Double::from_u64(n)).finite() && halves(h).over(Double::from_u64(n)).le(one())
            && zero().le(halves(h).over(Double::from_u64(n))),
{
    lemma_units_are_exact(h, 1073, halves(h));
    lemma_whole_is_exact(n);
    reveal(Double::spec_over);
    lemma_pow2_pos(1073);
    lemma_pow2_pos(1074);
    let g = pow2(1074);
    let d = Double::from_u64(n);
    assert(n * g > 0) by (nonlinear_arith)
        requires
            n > 0,
            g > 0,
    ;
    lemma_zero_magnitude(d);
    lemma_round_scale(h * pow2(1073), n as nat, g);
    let r = halves(h).over(d);
    if h <= 2 * n {
        lemma_pow2_unfold(1074);
        assert(h * pow2(1073) <= g * n) by (nonlinear_arith)
            requires
                h <= 2 * n,
                g == 2 * pow2(1073),
        ;
        law_rounding_is_monotone(h * pow2(1073), g * n as nat, n as nat);
        lemma_round_scale(g, 1, n as nat);
        assert(1 * n as nat == n as nat);
        lemma_one();
        law_rounding_keeps_representable(one());
        assert(one().code() == 0x3ff0_0000_0000_0000);
        assert(r.code() <= one().code());
    }
}

/// Whole numbers add exactly while the sum stays within `2^53`.
pub proof fn lemma_wholes_add(a: u64, b: u64)
    requires
        a + b <= 0x20_0000_0000_0000,
    ensures
        Double::from_u64(a).plus(Double::from_u64(b)) == Double::from_u64((a + b) as u64),
{
    lemma_whole_is_exact(a);
    lemma_whole_is_exact(b);
    reveal(Double::spec_plus);
    reveal(Double::spec_from_u64);
    let g = pow2(1074);
    lemma_pow2_pos(1074);
    assert(a * g + b * g == (a + b) * g) by (nonlinear_arith);
    if a + b == 0 {
        lemma_round_zero(1);
        assert(0 * g == 0);
    } else {
        assert((a + b) * g > 0) by (nonlinear_arith)
            requires
                a + b > 0,
                g > 0,
        ;
    }
}

/// One times a number is that number.
pub proof fn lemma_times_one(d: Double)
    requires
        d.finite(),
    ensures
        one().times(d) == d,
{
    lemma_one();
    reveal(Double::spec_times);
    lemma_pow2_pos(1074);
    lemma_round_scale(d.magnitude(), 1, pow2(1074));
    lemma_mul_is_commutative(d.magnitude() as int, pow2(1074) as int);
    law_rounding_keeps_representable(d);
    assert(1 * pow2(1074) == pow2(1074));
}

/// One share in `n` is finite, and so is what it leaves of one.
pub proof fn lemma_share_is_finite(n: u64)
    requires
        n > 0,
    ensures
        one().over(Double::from_u64(n)).finite(),
        one().minus(one().over(Double::from_u64(n))).finite(),
{
    lemma_one();
    lemma_ratio_is_finite(1, n);
    lemma_power_at_most(1074, 1140);
    lemma_difference_is_finite(one(), one().over(Double::from_u64(n)));
}

/// Rounding is monotone: a larger quotient never rounds to a smaller number.
pub proof fn law_rounding_is_monotone(small: nat, large: nat, den: nat)
    requires
        den > 0,
        small <= large,
    ensures
        round_code(small, den) <= round_code(large, den),
{
    let e1 = ulp_exponent(small, den);
    let e2 = ulp_exponent(large, den);
    let u1 = pow2(e1);
    let u2 = pow2(e2);
    lemma_ulp_exponent_bounds(small, den);
    lemma_ulp_exponent_bounds(large, den);
    lemma_pow2_pos(e1);
    lemma_pow2_pos(e2);
    if e1 > e2 {
        lemma_pow2_unfold(e2 + 1);
        lemma_power_at_most(e2 + 1, e1);
        assert(false) by (nonlinear_arith)
            requires
                small >= den * u1 * 0x10_0000_0000_0000,
                u1 >= 2 * u2,
                large < den * u2 * 0x20_0000_0000_0000,
                small <= large,
                den > 0,
        ;
    }
    let w1 = den * u1;
    let w2 = den * u2;
    assert(w1 > 0 && w2 > 0) by (nonlinear_arith)
        requires
            w1 == den * u1,
            w2 == den * u2,
            den > 0,
            u1 > 0,
            u2 > 0,
    ;
    let q1 = small / w1;
    let q2 = large / w2;
    lemma_fundamental_div_mod(small as int, w1 as int);
    lemma_fundamental_div_mod(large as int, w2 as int);
    lemma_mod_pos_bound(small as int, w1 as int);
    lemma_mod_pos_bound(large as int, w2 as int);
    if e1 == e2 {
        lemma_div_is_ordered(small as int, large as int, w1 as int);
        if q1 == q2 {
            assert(small % w1 <= large % w1);
        }
    } else {
        assert(q1 < 0x20_0000_0000_0000) by (nonlinear_arith)
            requires
                small < w1 * 0x20_0000_0000_0000,
                small == w1 * q1 + small % w1,
                small % w1 >= 0,
                w1 > 0,
        ;
        assert(q2 >= 0x10_0000_0000_0000) by (nonlinear_arith)
            requires
                large >= w2 * 0x10_0000_0000_0000,
                large == w2 * q2 + large % w2,
                large % w2 < w2,
                w2 > 0,
        ;
    }
}

/// A finite number over a positive whole number is finite and no larger, and has its
/// sign.
pub proof fn lemma_over_whole(a: Double, n: u64)
    requires
        a.finite(),
        n > 0,
    ensures
        a.over(Double::from_u64(n)).finite(),
        a.over(Double::from_u64(n)).code() <= a.code(),
        a.over(Double::from_u64(n)).negative() == a.negative(),
{
    let b = Double::from_u64(n);
    let m = a.magnitude();
    let den = b.magnitude();
    let g = pow2(1074);
    lemma_whole_is_large(n);
    lemma_zero_magnitude(b);
    lemma_pow2_pos(1074);
    reveal(Double::spec_over);
    law_rounding_keeps_representable(a);
    lemma_round_scale(m, 1, den);
    assert(1 * den == den);
    assert(m * g <= m * den) by (nonlinear_arith)
        requires
            g <= den,
    ;
    law_rounding_is_monotone(m * g, m * den, den);
}

/// Addition of numbers that are not negative is monotone.
pub proof fn lemma_plus_is_monotone(a: Double, b: Double, c: Double, d: Double)
    requires
        a.finite() && b.finite() && c.finite() && d.finite(),
        zero().le(a) && zero().le(b),
        a.le(c) && b.le(d),
    ensures
        a.plus(b).le(c.plus(d)),
        zero().le(a.plus(b)),
{
    let z = zero();
    assert(z.code() == 0);
    lemma_zero_magnitude(z);
    law_order_is_numeric(z, a);
    law_order_is_numeric(z, b);
    law_order_is_numeric(a, c);
    law_order_is_numeric(b, d);
    reveal(Double::spec_plus);
    let s1 = a.value() + b.value();
    let s2 = c.value() + d.value();
    law_rounding_is_monotone(abs_int(s1), abs_int(s2), 1);
    lemma_round_code_range(abs_int(s1), 1);
    lemma_round_code_range(abs_int(s2), 1);
    if s1 != 0 {
        assert(a.plus(b).code() == round_code(abs_int(s1), 1));
    }
    if s2 != 0 {
        assert(c.plus(d).code() == round_code(abs_int(s2), 1));
    }
}

/// Division by a positive number is monotone, and turns signs as it should.
pub proof fn lemma_over_is_monotone(a: Double, c: Double, q: Double)
    requires
        zero().le(a),
        a.le(c),
        q.finite(),
        zero().lt(q),
    ensures
        zero().le(a.over(q)),
        a.over(q).le(c.over(q)),
        a.neg().over(q).le(zero()),
        c.neg().over(q).le(a.neg().over(q)),
{
    let z = zero();
    assert(z.code() == 0);
    reveal(Double::spec_over);
    lemma_pow2_pos(1074);
    lemma_zero_magnitude(q);
    let g = pow2(1074);
    let den = q.magnitude();
    assert(a.neg().code() == a.code() && c.neg().code() == c.code());
    assert(a.neg().magnitude() == a.magnitude() && c.neg().magnitude() == c.magnitude());
    lemma_round_code_range(a.magnitude() * g, den);
    lemma_round_code_range(c.magnitude() * g, den);
    if a.code() == 0 {
        lemma_zero_magnitude(a);
        lemma_round_zero(den);
        assert(a.magnitude() * g == 0) by (nonlinear_arith)
            requires
                a.magnitude() == 0,
        ;
    }
    if c.finite() && c.code() == 0 {
        lemma_zero_magnitude(c);
        assert(c.magnitude() * g == 0) by (nonlinear_arith)
            requires
                c.magnitude() == 0,
        ;
    }
    if c.finite() {
        if a.code() < c.code() {
            lemma_code_orders(a, c);
        } else {
            assert(a.code() == c.code());
            assert(a.magnitude() == c.magnitude());
        }
        let (m, k) = (a.magnitude(), c.magnitude());
        assert(m * g <= k * g) by (nonlinear_arith)
            requires
                m <= k,
        ;
        law_rounding_is_monotone(m * g, k * g, den);
    }
}

/// A sum of at most `k` ones over `k` is at most one.
pub proof fn lemma_mean_is_at_most_one(s: Double, k: u64)
    requires
        zero().le(s),
        s.le(Double::from_u64(k)),
        0 < k <= 0x20_0000_0000_0000,
    ensures
        s.over(Double::from_u64(k)).le(one()),
        zero().le(s.over(Double::from_u64(k))),
{
    let d = Double::from_u64(k);
    let z = zero();
    assert(z.code() == 0);
    lemma_whole_is_exact(k);
    lemma_whole_is_large(k);
    lemma_zero_magnitude(d);
    lemma_positive_whole(k);
    lemma_over_is_monotone(s, d, d);
    reveal(Double::spec_over);
    lemma_pow2_pos(1074);
    lemma_one();
    law_rounding_keeps_representable(one());
    lemma_round_scale(pow2(1074), 1, d.magnitude());
    lemma_mul_is_commutative(pow2(1074) as int, d.magnitude() as int);
    assert(1 * d.magnitude() == d.magnitude());
    assert(d.over(d) == one());
}

/// A positive whole number is above zero.
pub proof fn lemma_positive_whole(n: u64)
    requires
        n > 0,
    ensures
        Double::from_u64(n).finite(),
        zero().lt(Double::from_u64(n)),
{
    let z = zero();
    assert(z.code() == 0);
    lemma_whole_is_large(n);
    lemma_pow2_pos(1074);
    lemma_zero_magnitude(Double::from_u64(n));
}

/// A factor between zero and one does not enlarge a number that is not negative.
pub proof fn lemma_fraction_shrinks(f: Double, a: Double)
    requires
        zero().lt(f),
        f.le(one()),
        a.finite(),
        zero().le(a),
    ensures
        f.times(a).finite(),
        zero().le(f.times(a)),
        f.times(a).le(a),
{
    let z = zero();
    assert(z.code() == 0);
    assert(one().code() == 0x3ff0_0000_0000_0000);
    lemma_one();
    law_order_is_numeric(f, one());
    reveal(Double::spec_times);
    lemma_pow2_pos(1074);
    let g = pow2(1074);
    let (m, k) = (f.magnitude(), a.magnitude());
    assert(m <= g);
    law_rounding_keeps_representable(a);
    lemma_round_scale(k, 1, g);
    assert(1 * g == g);
    assert(m * k <= k * g) by (nonlinear_arith)
        requires
            m <= g,
    ;
    law_rounding_is_monotone(m * k, k * g, g);
    if a.code() == 0 {
        lemma_zero_magnitude(a);
        lemma_round_zero(g);
        assert(m * k == 0) by (nonlinear_arith)
            requires
                k == 0,
        ;
    }
}

} // verus!
