//! Arithmetic on double-precision numbers: each result is the exact one, rounded
//! to the nearest number, halves to the even one.

use crate::double::{
    lemma_order_is_numeric, lemma_units_at, lemma_units_increase, units, Double, FINEST, HIDDEN,
    INFINITE, SIGN,
};
use crate::rounding::{
    above_zero, bit_length, lemma_exact, lemma_nearest, lemma_nearest_grows, lemma_powers,
    lemma_rounded, lemma_rounds_to_one, nearest, power, round, scaled,
};
use vstd::arithmetic::power2::{
    lemma2_to64, lemma2_to64_rest, lemma_pow2_adds, lemma_pow2_pos, lemma_pow2_strictly_increases,
    lemma_pow2_unfold, pow2,
};
use vstd::prelude::*;

verus! {

/// The bit pattern that stands for no number.
pub const NO_NUMBER: u64 = 0x7ff8_0000_0000_0000;

impl Double {
    /// No number.
    pub open spec fn no_number() -> Self {
        Double { bits: NO_NUMBER }
    }

    /// A number of the given sign and size.
    pub open spec fn signed_size(negative: bool, size: nat) -> Self {
        if negative {
            Double { bits: (SIGN + size) as u64 }
        } else {
            Double { bits: size as u64 }
        }
    }

    /// The number nearest to `num / den` units, with the given sign.
    pub open spec fn rounded(negative: bool, num: nat, den: nat) -> Self {
        Self::signed_size(negative, nearest(num, den))
    }

    /// The number nearest to an integer.
    pub open spec fn integer(value: nat) -> Self {
        Self::rounded(false, value * pow2(FINEST as nat), 1)
    }

    /// The number nearest to so many units. Zero is negative only where both of
    /// what was added up are.
    pub open spec fn rounded_sum(exact: int, both_negative: bool) -> Self {
        if exact == 0 {
            Self::signed_size(both_negative, 0)
        } else if exact < 0 {
            Self::rounded(true, (-exact) as nat, 1)
        } else {
            Self::rounded(false, exact as nat, 1)
        }
    }

    pub open spec fn sum(self, other: Self) -> Self {
        let exact = self.value() + other.value();
        if self.nan() || other.nan() {
            Self::no_number()
        } else if self.infinite() && other.infinite() && self.negative() != other.negative() {
            Self::no_number()
        } else if self.infinite() {
            self
        } else if other.infinite() {
            other
        } else {
            Self::rounded_sum(exact, self.negative() && other.negative())
        }
    }

    pub open spec fn difference(self, other: Self) -> Self {
        self.sum(other.opposite())
    }

    pub open spec fn product(self, other: Self) -> Self {
        let negative = self.negative() != other.negative();
        if self.nan() || other.nan() {
            Self::no_number()
        } else if self.infinite() || other.infinite() {
            if self.size() == 0 || other.size() == 0 {
                Self::no_number()
            } else {
                Self::signed_size(negative, INFINITE as nat)
            }
        } else {
            Self::rounded(
                negative,
                units(self.size()) * units(other.size()),
                pow2(FINEST as nat),
            )
        }
    }

    pub open spec fn quotient(self, other: Self) -> Self {
        let negative = self.negative() != other.negative();
        if self.nan() || other.nan() {
            Self::no_number()
        } else if self.infinite() {
            if other.infinite() {
                Self::no_number()
            } else {
                Self::signed_size(negative, INFINITE as nat)
            }
        } else if other.infinite() {
            Self::signed_size(negative, 0)
        } else if other.size() == 0 {
            if self.size() == 0 {
                Self::no_number()
            } else {
                Self::signed_size(negative, INFINITE as nat)
            }
        } else {
            Self::rounded(
                negative,
                units(self.size()) * pow2(FINEST as nat),
                units(other.size()),
            )
        }
    }

    pub(crate) fn with_size(negative: bool, size: u64) -> (result: Self)
        requires
            size < SIGN,
        ensures
            result == Self::signed_size(negative, size as nat),
    {
        if negative {
            Double { bits: SIGN + size }
        } else {
            Double { bits: size }
        }
    }

    /// The mantissa and the scale of a finite number.
    pub(crate) fn parts(self) -> (result: (u64, i32))
        requires
            self.finite(),
        ensures
            result.0 < 2 * HIDDEN,
            0 <= result.1 < 2046,
            result.1 == 0 || result.0 >= HIDDEN,
            units(self.size()) == result.0 as nat * pow2(result.1 as nat),
    {
        let size: u64 = self.bits % SIGN;
        let exponent: u64 = size / HIDDEN;
        let fraction: u64 = size % HIDDEN;
        if exponent == 0 {
            proof {
                lemma_units_at(0, size as nat);
            }
            (fraction, 0)
        } else {
            proof {
                lemma_units_at((exponent - 1) as nat, (HIDDEN + fraction) as nat);
            }
            (HIDDEN + fraction, exponent as i32 - 1)
        }
    }

    pub fn from_integer(value: u128) -> (result: Self)
        requires
            value < 0x8000_0000_0000_0000_0000_0000_0000_0000,
        ensures
            result == Self::integer(value as nat),
    {
        let ghost num = value as nat * pow2(FINEST as nat);
        proof {
            lemma_powers();
            assert(num * 1 == num);
        }
        let size: u64 = round(value, FINEST as i32, false, Ghost(num), Ghost(1));
        Self::with_size(false, size)
    }

    pub fn mul(self, other: Self) -> (result: Self)
        ensures
            result == self.product(other),
    {
        let negative: bool = self.is_negative() != other.is_negative();
        if self.is_nan() || other.is_nan() {
            return Double { bits: NO_NUMBER };
        }
        if !self.is_finite() || !other.is_finite() {
            return if self.bits % SIGN == 0 || other.bits % SIGN == 0 {
                Double { bits: NO_NUMBER }
            } else {
                Self::with_size(negative, INFINITE)
            };
        }
        let (left, left_scale) = self.parts();
        let (right, right_scale) = other.parts();
        proof {
            lemma_wide_product(left, right);
        }
        let m: u128 = left as u128 * right as u128;
        let e: i32 = left_scale + right_scale - 1074;
        let ghost num = units(self.size()) * units(other.size());
        let ghost den = pow2(FINEST as nat);
        proof {
            lemma_pow2_pos(FINEST as nat);
            lemma_product_scaled(
                left as nat,
                left_scale as nat,
                right as nat,
                right_scale as nat,
            );
        }
        let size: u64 = round(m, e, false, Ghost(num), Ghost(den));
        Self::with_size(negative, size)
    }

    pub fn div(self, other: Self) -> (result: Self)
        ensures
            result == self.quotient(other),
    {
        let negative: bool = self.is_negative() != other.is_negative();
        if self.is_nan() || other.is_nan() {
            return Double { bits: NO_NUMBER };
        }
        if !self.is_finite() {
            return if !other.is_finite() {
                Double { bits: NO_NUMBER }
            } else {
                Self::with_size(negative, INFINITE)
            };
        }
        if !other.is_finite() {
            return Self::with_size(negative, 0);
        }
        if other.bits % SIGN == 0 {
            return if self.bits % SIGN == 0 {
                Double { bits: NO_NUMBER }
            } else {
                Self::with_size(negative, INFINITE)
            };
        }
        let (left, left_scale) = self.parts();
        let (right, right_scale) = other.parts();
        let ghost num = units(self.size()) * pow2(FINEST as nat);
        let ghost den = units(other.size());
        proof {
            lemma_units_increase(0, other.size());
            assert(right > 0) by (nonlinear_arith)
                requires
                    right as nat * pow2(right_scale as nat) > 0,
            ;
        }
        if left == 0 {
            proof {
                assert(0nat * pow2(left_scale as nat) == 0) by (nonlinear_arith);
                assert(0nat * pow2(FINEST as nat) == 0) by (nonlinear_arith);
                lemma_exact(0, den);
                assert(0nat * den == 0) by (nonlinear_arith);
                lemma_nearest(0, den, 0);
            }
            return Self::with_size(negative, 0);
        }
        let (dividend, shift) = Self::normalised(left);
        let divisor: u128 = right as u128;
        let q: u128 = dividend / divisor;
        let rest: u128 = dividend % divisor;
        let e: i32 = left_scale - right_scale - shift + 1074;
        proof {
            vstd::arithmetic::div_mod::lemma_fundamental_div_mod(dividend as int, divisor as int);
            assert(q * divisor <= dividend) by (nonlinear_arith)
                requires
                    dividend == divisor * q + rest,
                    rest >= 0,
            ;
            assert(dividend < (q + 1) * divisor) by (nonlinear_arith)
                requires
                    dividend == divisor * q + rest,
                    rest < divisor,
            ;
            assert(rest > 0 ==> q * divisor < dividend) by (nonlinear_arith)
                requires
                    dividend == divisor * q + rest,
            ;
            assert(rest == 0 ==> q * divisor == dividend) by (nonlinear_arith)
                requires
                    dividend == divisor * q + rest,
            ;
            assert(q >= 0x80_0000_0000_0000) by (nonlinear_arith)
                requires
                    dividend < (q + 1) * divisor,
                    divisor < 0x20_0000_0000_0000,
                    dividend >= 0x2000_0000_0000_0000_0000_0000_0000_0000,
            ;
            assert(q <= dividend) by (nonlinear_arith)
                requires
                    q * divisor <= dividend,
                    divisor >= 1,
            ;
            lemma_quotient_scaled(
                left as nat,
                left_scale as nat,
                right as nat,
                right_scale as nat,
                shift as nat,
                q as nat,
                rest > 0,
            );
        }
        let size: u64 = round(q, e, rest > 0, Ghost(num), Ghost(den));
        Self::with_size(negative, size)
    }

    /// A mantissa moved up until it has 126 binary digits, and by how many.
    pub(crate) fn normalised(mantissa: u64) -> (result: (u128, i32))
        requires
            0 < mantissa,
        ensures
            62 <= result.1 < 126,
            result.0 == mantissa * pow2(result.1 as nat),
            0x2000_0000_0000_0000_0000_0000_0000_0000 <= result.0
                < 0x4000_0000_0000_0000_0000_0000_0000_0000,
    {
        let length: u32 = bit_length(mantissa as u128);
        proof {
            lemma2_to64();
            if length > 64 {
                if length - 1 > 64 {
                    lemma_pow2_strictly_increases(64, (length - 1) as nat);
                }
                assert(false);
            }
        }
        let shift: u32 = 126 - length;
        let factor: u128 = power(shift);
        proof {
            assert(pow2(126) == 0x4000_0000_0000_0000_0000_0000_0000_0000 && pow2(125)
                == 0x2000_0000_0000_0000_0000_0000_0000_0000) by {
                lemma2_to64();
                lemma2_to64_rest();
                lemma_pow2_adds(63, 63);
                lemma_pow2_adds(62, 63);
            }
            lemma_pow2_adds(length as nat, shift as nat);
            lemma_pow2_adds((length - 1) as nat, shift as nat);
            lemma_pow2_pos(shift as nat);
            let high = pow2(length as nat);
            let low = pow2((length - 1) as nat);
            assert(low * factor <= mantissa * factor < high * factor) by (nonlinear_arith)
                requires
                    low <= mantissa < high,
                    factor > 0,
            ;
        }
        (mantissa as u128 * factor, shift as i32)
    }

    pub fn add(self, other: Self) -> (result: Self)
        ensures
            result == self.sum(other),
    {
        if self.is_nan() || other.is_nan() {
            return Double { bits: NO_NUMBER };
        }
        if !self.is_finite() {
            return if !other.is_finite() && self.is_negative() != other.is_negative() {
                Double { bits: NO_NUMBER }
            } else {
                self
            };
        }
        if !other.is_finite() {
            return other;
        }
        let (left, left_scale) = self.parts();
        let (right, right_scale) = other.parts();
        let left_negative: bool = self.is_negative();
        let right_negative: bool = other.is_negative();
        if left_scale >= right_scale {
            Self::add_parts(
                left,
                left_scale,
                left_negative,
                right,
                right_scale,
                right_negative,
            )
        } else {
            Self::add_parts(
                right,
                right_scale,
                right_negative,
                left,
                left_scale,
                left_negative,
            )
        }
    }

    /// The sum of two numbers by their parts, the first of no smaller scale.
    fn add_parts(
        left: u64,
        left_scale: i32,
        left_negative: bool,
        right: u64,
        right_scale: i32,
        right_negative: bool,
    ) -> (result: Self)
        requires
            left < 2 * HIDDEN,
            right < 2 * HIDDEN,
            0 <= right_scale <= left_scale < 2046,
            left_scale == 0 || left >= HIDDEN,
        ensures
            ({
                let x = left as nat * pow2(left_scale as nat);
                let y = right as nat * pow2(right_scale as nat);
                let exact = if left_negative {
                    -x
                } else {
                    x as int
                } + if right_negative {
                    -y
                } else {
                    y as int
                };
                result == Self::rounded_sum(exact, left_negative && right_negative)
            }),
    {
        let ghost x = left as nat * pow2(left_scale as nat);
        let ghost y = right as nat * pow2(right_scale as nat);
        let distance: i32 = left_scale - right_scale;
        if distance <= 70 {
            let factor: u128 = power(distance as u32);
            proof {
                lemma_pow2_adds(distance as nat, right_scale as nat);
                lemma_powers();
                assert(pow2(70) == 0x40_0000_0000_0000_0000) by {
                    lemma2_to64();
                    lemma2_to64_rest();
                    lemma_pow2_adds(6, 64);
                }
                if distance < 70 {
                    lemma_pow2_strictly_increases(distance as nat, 70);
                }
                assert(left * factor <= 0x2000_0000_0000_0000_0000_0000_0000_0000)
                    by (nonlinear_arith)
                    requires
                        left < 0x20_0000_0000_0000,
                        factor <= 0x40_0000_0000_0000_0000,
                ;
                let g = pow2(right_scale as nat);
                assert(left as nat * (factor as nat * g) == (left * factor) as nat * g)
                    by (nonlinear_arith);
            }
            let coarse: u128 = left as u128 * factor;
            let fine: u128 = right as u128;
            let ghost g = pow2(right_scale as nat);
            assert(x == coarse as nat * g);
            assert(y == fine as nat * g);
            if left_negative == right_negative {
                assert(x + y == (coarse + fine) as nat * g) by (nonlinear_arith)
                    requires
                        x == coarse as nat * g,
                        y == fine as nat * g,
                ;
                Self::rounded_exact(left_negative, coarse + fine, right_scale, Ghost(x + y))
            } else if coarse > fine {
                assert(x - y == (coarse - fine) * g) by (nonlinear_arith)
                    requires
                        x == coarse as nat * g,
                        y == fine as nat * g,
                ;
                proof {
                    lemma_pow2_pos(right_scale as nat);
                    assert((coarse - fine) * g > 0) by (nonlinear_arith)
                        requires
                            coarse > fine,
                            g > 0,
                    ;
                }
                Self::rounded_exact(
                    left_negative,
                    coarse - fine,
                    right_scale,
                    Ghost((x - y) as nat),
                )
            } else if coarse < fine {
                assert(y - x == (fine - coarse) * g) by (nonlinear_arith)
                    requires
                        x == coarse as nat * g,
                        y == fine as nat * g,
                ;
                proof {
                    lemma_pow2_pos(right_scale as nat);
                    assert((fine - coarse) * g > 0) by (nonlinear_arith)
                        requires
                            coarse < fine,
                            g > 0,
                    ;
                }
                Self::rounded_exact(
                    right_negative,
                    fine - coarse,
                    right_scale,
                    Ghost((y - x) as nat),
                )
            } else {
                Double { bits: 0 }
            }
        } else {
            let e: i32 = left_scale - 18;
            let wide: u128 = left as u128 * 0x4_0000;
            let ghost g = pow2(e as nat);
            proof {
                lemma2_to64();
                lemma_pow2_adds(18, e as nat);
                assert(left as nat * (0x4_0000 * g) == wide as nat * g) by (nonlinear_arith)
                    requires
                        wide == left * 0x4_0000,
                ;
                lemma_pow2_pos(right_scale as nat);
                lemma_powers();
                lemma_pow2_adds(53, right_scale as nat);
                if 53 + right_scale < e {
                    lemma_pow2_strictly_increases((53 + right_scale) as nat, e as nat);
                }
                let f = pow2(right_scale as nat);
                assert(y < 0x20_0000_0000_0000 * f) by (nonlinear_arith)
                    requires
                        y == right as nat * f,
                        right < 0x20_0000_0000_0000,
                        f > 0,
                ;
                assert(y < g);
                assert(right > 0 ==> y > 0) by (nonlinear_arith)
                    requires
                        y == right as nat * f,
                        f > 0,
                ;
                let w = wide as nat;
                assert((w + 1) * g * 1 == w * g + g) by (nonlinear_arith);
                assert(w > 0 ==> ((w - 1) as nat) * g * 1 == w * g - g) by (nonlinear_arith);
                assert(((w - 1) as nat + 1) * g * 1 == w * g) by (nonlinear_arith)
                    requires
                        w > 0,
                ;
                assert(w * g * 1 == w * g);
                assert((x + y) * 1 == x + y);
                assert((x - y) * 1 == x - y);
            }
            if right == 0 {
                assert(y == 0) by (nonlinear_arith)
                    requires
                        y == right as nat * pow2(right_scale as nat),
                        right == 0,
                ;
                Self::rounded_exact(left_negative, wide, e, Ghost(x))
            } else if left_negative == right_negative {
                let size: u64 = round(wide, e, true, Ghost(x + y), Ghost(1));
                Self::with_size(left_negative, size)
            } else {
                let size: u64 = round(wide - 1, e, true, Ghost((x - y) as nat), Ghost(1));
                Self::with_size(left_negative, size)
            }
        }
    }

    /// The number nearest to `m` times two to the power of `e` units.
    fn rounded_exact(negative: bool, m: u128, e: i32, Ghost(num): Ghost<nat>) -> (result: Self)
        requires
            m < 0x8000_0000_0000_0000_0000_0000_0000_0000,
            0 <= e <= 5000,
            num == m as nat * pow2(e as nat),
        ensures
            num > 0 ==> result == Self::rounded(negative, num, 1),
            num == 0 ==> result == Self::signed_size(negative, 0),
    {
        proof {
            lemma_powers();
            assert(num * 1 == num);
        }
        let size: u64 = round(m, e, false, Ghost(num), Ghost(1));
        proof {
            if num == 0 {
                lemma_exact(0, 1);
                lemma_rounds_to_one(0, 1, size as nat, 0);
            }
        }
        Self::with_size(negative, size)
    }

    /// So many nanoseconds in seconds: the whole seconds and the rest are
    /// rounded one by one.
    pub open spec fn seconds(nanoseconds: nat) -> Self {
        Self::integer(nanoseconds / 1_000_000_000).sum(
            Self::integer(nanoseconds % 1_000_000_000).quotient(Self::integer(1_000_000_000)),
        )
    }

    pub fn from_nanoseconds(nanoseconds: u64) -> (result: Self)
        ensures
            result == Self::seconds(nanoseconds as nat),
    {
        let whole: Double = Self::from_integer((nanoseconds / 1_000_000_000) as u128);
        let rest: Double = Self::from_integer((nanoseconds % 1_000_000_000) as u128);
        whole.add(rest.div(Self::from_integer(1_000_000_000)))
    }

    pub fn sub(self, other: Self) -> (result: Self)
        ensures
            result == self.difference(other),
    {
        self.add(other.neg())
    }
}

proof fn lemma_wide_product(left: u64, right: u64)
    requires
        left < 2 * HIDDEN,
        right < 2 * HIDDEN,
    ensures
        left as u128 * right as u128 <= 0x400_0000_0000_0000_0000_0000_0000,
{
    assert(left as u128 * right as u128 <= 0x400_0000_0000_0000_0000_0000_0000) by (nonlinear_arith)
        requires
            left < 0x20_0000_0000_0000,
            right < 0x20_0000_0000_0000,
    ;
}

proof fn lemma_product_scaled(left: nat, left_scale: nat, right: nat, right_scale: nat)
    ensures
        scaled(
            left * right,
            left_scale + right_scale - 1074,
            false,
            (left * pow2(left_scale)) * (right * pow2(right_scale)),
            pow2(1074),
        ),
{
    let e = left_scale + right_scale - 1074;
    let up: nat = above_zero(e);
    let down: nat = above_zero(-e);
    let a = pow2(left_scale);
    let b = pow2(right_scale);
    lemma_pow2_adds(left_scale, right_scale);
    lemma_pow2_adds(left_scale + right_scale, down);
    lemma_pow2_adds(up, 1074);
    assert((left * a) * (right * b) * pow2(down) == left * right * (a * b * pow2(down)))
        by (nonlinear_arith);
    assert(left * right * pow2(up) * pow2(1074) == left * right * (pow2(up) * pow2(1074)))
        by (nonlinear_arith);
    assert(up + 1074 == left_scale + right_scale + down);
}

pub proof fn lemma_quotient_scaled(
    left: nat,
    left_scale: nat,
    right: nat,
    right_scale: nat,
    shift: nat,
    q: nat,
    cut: bool,
)
    requires
        cut ==> q * right < left * pow2(shift) < (q + 1) * right,
        !cut ==> q * right == left * pow2(shift),
    ensures
        scaled(
            q,
            left_scale - right_scale - shift + 1074,
            cut,
            (left * pow2(left_scale)) * pow2(1074),
            right * pow2(right_scale),
        ),
{
    let e = left_scale - right_scale - shift + 1074;
    let up: nat = above_zero(e);
    let down: nat = above_zero(-e);
    let a = pow2(left_scale);
    let b = pow2(right_scale);
    let s = pow2(shift);
    let u = pow2(up);
    let d = pow2(down);
    let f = u * b;
    lemma_pow2_adds(up, right_scale);
    lemma_pow2_adds(up + right_scale, shift);
    lemma_pow2_adds(left_scale, 1074);
    lemma_pow2_adds(left_scale + 1074, down);
    lemma_pow2_pos(up + right_scale);
    assert(up + right_scale + shift == left_scale + 1074 + down);
    assert((left * a) * pow2(1074) * d == left * (a * pow2(1074) * d)) by (nonlinear_arith);
    assert(left * (f * s) == (left * s) * f) by (nonlinear_arith);
    assert(q * u * (right * b) == (q * right) * f) by (nonlinear_arith)
        requires
            f == u * b,
    ;
    assert((q + 1) * u * (right * b) == ((q + 1) * right) * f) by (nonlinear_arith)
        requires
            f == u * b,
    ;
    let low = q * right;
    let exact = left * s;
    let high = (q + 1) * right;
    if cut {
        assert(low * f < exact * f < high * f) by (nonlinear_arith)
            requires
                low < exact < high,
                f > 0,
        ;
    }
}

// ---------------------------------------------------------------------------
// Laws
// ---------------------------------------------------------------------------

proof fn lemma_signed_size(negative: bool, size: nat)
    requires
        size <= INFINITE,
    ensures
        Double::signed_size(negative, size).size() == size,
        Double::signed_size(negative, size).negative() == negative,
{
}

/// The number one.
proof fn lemma_one()
    ensures
        Double::integer(1).size() == 1023 * HIDDEN,
        !Double::integer(1).negative(),
        units(1023 * HIDDEN as nat) == pow2(FINEST as nat),
{
    let size = 1023 * HIDDEN as nat;
    lemma_powers();
    lemma_units_at(1022, HIDDEN as nat);
    lemma_pow2_adds(52, 1022);
    lemma_exact(size, 1);
    assert(units(size) * 1 == 1 * pow2(FINEST as nat)) by (nonlinear_arith)
        requires
            units(size) == pow2(FINEST as nat),
    ;
    lemma_nearest(1 * pow2(FINEST as nat), 1, size);
    lemma_signed_size(false, size);
}

/// Integers up to the size of a machine word are numbers, in the same order.
pub proof fn lemma_integers(small: nat, large: nat)
    requires
        small <= large < 0x8000_0000_0000_0000_0000_0000_0000_0000,
    ensures
        Double::integer(small).finite(),
        !Double::integer(small).negative(),
        Double::integer(small).at_most(Double::integer(large)),
        small > 0 ==> Double::integer(small).size() > 0,
        Double::integer(0) == Double::zero(),
{
    let p = pow2(FINEST as nat);
    lemma_one();
    lemma_limit(small);
    lemma_limit(large);
    assert(small * p * 1 <= large * p * 1) by (nonlinear_arith)
        requires
            small <= large,
    ;
    lemma_nearest_grows(small * p, 1, large * p, 1);
    if small > 0 {
        assert(1 * p * 1 <= small * p * 1) by (nonlinear_arith)
            requires
                small > 0,
        ;
        lemma_nearest_grows(1 * p, 1, small * p, 1);
    }
    lemma_exact(0, 1);
    assert(units(0) * 1 == 0 * p) by (nonlinear_arith)
        requires
            units(0) == 0,
    ;
    lemma_nearest(0 * p, 1, 0);
}

proof fn lemma_limit(value: nat)
    requires
        value < 0x8000_0000_0000_0000_0000_0000_0000_0000,
    ensures
        Double::integer(value).finite(),
        !Double::integer(value).negative(),
        Double::integer(value).size() == nearest(value * pow2(FINEST as nat), 1),
{
    let top = 1150 * HIDDEN as nat;
    let p = pow2(FINEST as nat);
    let bound = pow2(127);
    lemma_powers();
    assert(bound == 0x8000_0000_0000_0000_0000_0000_0000_0000) by {
        lemma2_to64();
        lemma2_to64_rest();
        lemma_pow2_adds(63, 64);
    }
    lemma_units_at(1149, HIDDEN as nat);
    lemma_pow2_adds(52, 1149);
    lemma_pow2_adds(127, FINEST as nat);
    lemma_exact(top, 1);
    assert(units(top) * 1 == bound * p) by (nonlinear_arith)
        requires
            units(top) == bound * p,
    ;
    lemma_nearest(bound * p, 1, top);
    assert(value * p * 1 <= bound * p * 1) by (nonlinear_arith)
        requires
            value <= bound,
    ;
    lemma_nearest_grows(value * p, 1, bound * p, 1);
    lemma_signed_size(false, nearest(value * p, 1));
}

/// The share of a part of a whole, in percent, is a number from 0 to 100.
pub proof fn lemma_share(part: nat, whole: nat)
    requires
        part <= whole < 0x8000_0000_0000_0000_0000_0000_0000_0000,
        whole > 0,
    ensures
        ({
            let share = Double::integer(part).quotient(Double::integer(whole)).product(
                Double::integer(100),
            );
            &&& share.finite()
            &&& Double::zero().at_most(share)
            &&& share.at_most(Double::integer(100))
        }),
{
    let a = Double::integer(part);
    let b = Double::integer(whole);
    let h = Double::integer(100);
    let one = 1023 * HIDDEN as nat;
    let p = pow2(FINEST as nat);
    lemma_integers(part, whole);
    lemma_integers(whole, whole);
    lemma_integers(100, 100);
    lemma_one();
    lemma_pow2_pos(FINEST as nat);
    let ua = units(a.size());
    let ub = units(b.size());
    let uh = units(h.size());
    if a.size() < b.size() {
        lemma_units_increase(a.size(), b.size());
    }
    lemma_units_increase(0, b.size());
    assert(ua * p * 1 <= p * ub) by (nonlinear_arith)
        requires
            ua <= ub,
    ;
    lemma_nearest_grows(ua * p, ub, p, 1);
    lemma_exact(one, 1);
    assert(units(one) * 1 == p);
    lemma_nearest(p, 1, one);
    lemma_signed_size(false, nearest(ua * p, ub));
    let q = a.quotient(b);
    assert(q.size() <= one);
    if q.size() < one {
        lemma_units_increase(q.size(), one);
    }
    let uq = units(q.size());
    assert(uq * uh * p <= uh * p * p) by (nonlinear_arith)
        requires
            uq <= p,
    ;
    lemma_nearest_grows(uq * uh, p, uh * p, p);
    lemma_exact(h.size(), p);
    lemma_nearest(uh * p, p, h.size());
    lemma_signed_size(false, nearest(uq * uh, p));
}

/// Two numbers have no difference exactly where they are the same.
pub proof fn lemma_no_difference(a: Double, b: Double)
    requires
        a.finite(),
        b.finite(),
    ensures
        a.difference(b).size() == 0 <==> a.equals(b),
        !a.difference(b).nan(),
{
    lemma_order_is_numeric(a, b);
    let exact = a.value() + b.opposite().value();
    assert(exact == a.value() - b.value());
    if exact != 0 {
        let n: nat = if exact < 0 {
            (-exact) as nat
        } else {
            exact as nat
        };
        assert(units(1) == 1);
        lemma_exact(1, 1);
        lemma_nearest(1, 1, 1);
        lemma_nearest_grows(1, 1, n, 1);
        lemma_rounded(n, 1);
        lemma_signed_size(exact < 0, nearest(n, 1));
    }
}

/// What is larger does not round to something smaller.
pub proof fn lemma_rounded_sum_grows(small: int, large: int, first: bool, second: bool)
    requires
        small <= large,
    ensures
        Double::rounded_sum(small, first).at_most(Double::rounded_sum(large, second)),
{
    let below: nat = if small < 0 {
        (-small) as nat
    } else {
        small as nat
    };
    let above: nat = if large < 0 {
        (-large) as nat
    } else {
        large as nat
    };
    lemma_rounded(below, 1);
    lemma_rounded(above, 1);
    lemma_signed_size(small < 0, nearest(below, 1));
    lemma_signed_size(large < 0, nearest(above, 1));
    lemma_signed_size(first, 0);
    lemma_signed_size(second, 0);
    if large < 0 {
        lemma_nearest_grows(above, 1, below, 1);
    } else if small > 0 {
        lemma_nearest_grows(below, 1, above, 1);
    }
}

/// A number rounds to itself.
pub proof fn lemma_number_rounds_to_itself(a: Double, zero: bool)
    requires
        a.finite(),
    ensures
        Double::rounded_sum(a.value(), zero).equals(a),
{
    let size = a.size();
    lemma_exact(size, 1);
    assert(units(size) * 1 == units(size));
    lemma_nearest(units(size), 1, size);
    lemma_signed_size(a.negative(), size);
    lemma_signed_size(zero, 0);
    assert(units(0) == 0);
    if size > 0 {
        lemma_units_increase(0, size);
    }
}

/// What a difference of finite numbers is rounded from.
proof fn lemma_difference_is_rounded(a: Double, b: Double)
    requires
        a.finite(),
        b.finite(),
    ensures
        a.difference(b) == Double::rounded_sum(
            a.value() - b.value(),
            a.negative() && b.opposite().negative(),
        ),
{
    let c = b.opposite();
    assert(c.size() == b.size());
    assert(c.value() == -b.value());
    assert(!a.nan() && !c.nan() && !a.infinite() && !c.infinite());
}

/// Taking a number away from one that is not larger does not give more than zero.
pub proof fn lemma_difference_not_positive(a: Double, b: Double)
    requires
        a.finite(),
        b.finite(),
        a.at_most(b),
    ensures
        a.difference(b).at_most(Double::zero()),
{
    let both = a.negative() && b.opposite().negative();
    lemma_order_is_numeric(a, b);
    lemma_difference_is_rounded(a, b);
    lemma_rounded_sum_grows(a.value() - b.value(), 0, both, false);
    assert(Double::rounded_sum(0, false) == Double::zero());
}

/// Taking the same number away leaves numbers in their order.
pub proof fn lemma_differences_in_order(a: Double, b: Double, other: Double)
    requires
        a.finite(),
        b.finite(),
        other.finite(),
        a.at_most(b),
    ensures
        a.difference(other).at_most(b.difference(other)),
{
    lemma_order_is_numeric(a, b);
    lemma_difference_is_rounded(a, other);
    lemma_difference_is_rounded(b, other);
    lemma_rounded_sum_grows(
        a.value() - other.value(),
        b.value() - other.value(),
        a.negative() && other.opposite().negative(),
        b.negative() && other.opposite().negative(),
    );
}

/// What lies above a rounded number does not lie below what was rounded.
proof fn lemma_above_what_was_rounded(exact: int, zero: bool, b: Double)
    requires
        b.finite(),
        Double::rounded_sum(exact, zero).less(b),
    ensures
        exact <= b.value(),
{
    lemma_number_rounds_to_itself(b, false);
    if b.value() <= exact {
        lemma_rounded_sum_grows(b.value(), exact, false, zero);
    }
}

/// What is less than a number by no more than a span differs from it by no more.
proof fn lemma_difference_at_least(a: Double, span: Double, b: Double)
    requires
        a.finite(),
        span.finite(),
        b.finite(),
        a.value() - span.value() <= b.value(),
    ensures
        span.opposite().at_most(b.difference(a)),
{
    let both = b.negative() && a.opposite().negative();
    lemma_difference_is_rounded(b, a);
    assert(span.opposite().value() == -span.value());
    lemma_rounded_sum_grows(-span.value(), b.value() - a.value(), false, both);
    lemma_number_rounds_to_itself(span.opposite(), false);
}

/// What lies above the rounded difference of two numbers is no further from the
/// first of them than the second counts.
pub proof fn lemma_difference_above(a: Double, span: Double, b: Double)
    requires
        a.finite(),
        span.finite(),
        b.finite(),
        a.difference(span).less(b),
        b.at_most(a),
    ensures
        span.opposite().at_most(b.difference(a)),
        b.difference(a).at_most(Double::zero()),
{
    let exact = a.value() - span.value();
    lemma_difference_is_rounded(a, span);
    lemma_above_what_was_rounded(exact, a.negative() && span.opposite().negative(), b);
    lemma_difference_at_least(a, span, b);
    lemma_difference_not_positive(b, a);
}

/// Taking a number that is not negative away does not give more.
pub proof fn lemma_difference_below(a: Double, span: Double)
    requires
        a.finite(),
        span.finite(),
        !span.negative(),
    ensures
        a.difference(span).at_most(a),
{
    let both = a.negative() && span.opposite().negative();
    lemma_difference_is_rounded(a, span);
    lemma_rounded_sum_grows(a.value() - span.value(), a.value(), both, false);
    lemma_number_rounds_to_itself(a, false);
}

/// What counts no more than a number does not round to a larger one.
pub(crate) proof fn lemma_nearest_at_most(num: nat, den: nat, size: nat)
    requires
        size <= INFINITE,
        den > 0,
        num <= units(size) * den,
    ensures
        nearest(num, den) <= size,
        units(nearest(num, den)) <= units(size),
{
    let exact = units(size) * den;
    assert(num * den <= exact * den) by (nonlinear_arith)
        requires
            num <= exact,
    ;
    lemma_exact(size, den);
    lemma_nearest(exact, den, size);
    lemma_nearest_grows(num, den, exact, den);
    if nearest(num, den) < size {
        lemma_units_increase(nearest(num, den), size);
    }
}

/// The number that counts a power of two.
pub(crate) proof fn lemma_power_is_a_number(k: nat) -> (size: nat)
    requires
        k <= 2098,
    ensures
        size <= INFINITE,
        units(size) == pow2(k),
{
    lemma_powers();
    if k < 52 {
        lemma_pow2_strictly_increases(k, 52);
        lemma_units_at(0, pow2(k));
        pow2(k)
    } else {
        let scale = (k - 52) as nat;
        lemma_units_at(scale, HIDDEN as nat);
        lemma_pow2_adds(52, scale);
        scale * HIDDEN as nat + HIDDEN as nat
    }
}

/// The power of two at or below a number.
proof fn lemma_power_below(n: nat) -> (k: nat)
    requires
        n > 0,
    ensures
        pow2(k) <= n < pow2(k + 1),
    decreases n,
{
    lemma_powers();
    if n == 1 {
        0
    } else {
        let k = lemma_power_below(n / 2);
        lemma_pow2_unfold(k + 1);
        lemma_pow2_unfold(k + 2);
        k + 1
    }
}

/// A share of the distance of two numbers, of two parts or more, is rounded to no
/// more than the distance itself.
pub(crate) proof fn lemma_share_of_distance(a: Double, b: Double, count: nat)
    requires
        a.finite(),
        b.finite(),
        !a.negative(),
        !b.negative(),
        2 <= count < 0x8000_0000_0000_0000_0000_0000_0000_0000,
    ensures
        ({
            let step = b.difference(a).quotient(Double::integer(count));
            &&& step.finite()
            &&& b.value() >= a.value() ==> 0 <= step.value() <= b.value() - a.value()
            &&& b.value() <= a.value() ==> b.value() - a.value() <= step.value() <= 0
        }),
{
    let p = pow2(FINEST as nat);
    let exact = b.value() - a.value();
    let distance: nat = if exact < 0 {
        (-exact) as nat
    } else {
        exact as nat
    };
    let d = b.difference(a);
    let n = Double::integer(count);
    let two = 1024 * HIDDEN as nat;
    lemma_powers();
    lemma_pow2_pos(FINEST as nat);
    lemma_units_at(1023, HIDDEN as nat);
    lemma_pow2_adds(52, 1023);
    lemma_pow2_unfold(1075);
    assert(units(two) == 2 * p);
    lemma_exact(two, 1);
    lemma_nearest(units(two) * 1, 1, two);
    assert(units(two) * 1 * 1 <= count * p * 1) by (nonlinear_arith)
        requires
            units(two) == 2 * p,
            count >= 2,
    ;
    lemma_nearest_grows(units(two) * 1, 1, count * p, 1);
    lemma_limit(count);
    if two < n.size() {
        lemma_units_increase(two, n.size());
    }
    let parts = units(n.size());
    assert(parts >= 2 * p);
    assert(b.value() + a.opposite().value() == exact);
    if distance == 0 {
        assert(d.size() == 0);
        assert(units(0) == 0);
        assert(units(0) * p == 0) by (nonlinear_arith)
            requires
                units(0) == 0,
        ;
        lemma_nearest_at_most(0, parts, 0);
        lemma_signed_size(d.negative() != n.negative(), 0);
    } else {
        let larger = if a.size() < b.size() {
            b.size()
        } else {
            a.size()
        };
        if a.size() < b.size() {
            lemma_units_increase(a.size(), b.size());
        } else if b.size() < a.size() {
            lemma_units_increase(b.size(), a.size());
        }
        assert(distance <= units(larger) * 1);
        lemma_nearest_at_most(distance, 1, larger);
        lemma_signed_size(exact < 0, nearest(distance, 1));
        assert(d.size() == nearest(distance, 1));
        let k = lemma_power_below(distance);
        lemma_units_increase(larger, INFINITE as nat);
        lemma_units_at(2046, HIDDEN as nat);
        lemma_pow2_adds(52, 2046);
        assert(units(INFINITE as nat) == pow2(2098));
        if k + 1 > 2098 {
            if k > 2098 {
                lemma_pow2_strictly_increases(2098, k);
            }
            assert(false);
        }
        let above = lemma_power_is_a_number(k + 1);
        lemma_nearest_at_most(distance, 1, above);
        let here = lemma_power_is_a_number(k);
        let counted = units(d.size());
        let power = pow2(k);
        lemma_pow2_unfold(k + 1);
        assert(counted <= 2 * power);
        assert(counted * p <= power * parts) by (nonlinear_arith)
            requires
                counted <= 2 * power,
                parts >= 2 * p,
        ;
        lemma_nearest_at_most(counted * p, parts, here);
        let size = nearest(counted * p, parts);
        lemma_signed_size(d.negative() != n.negative(), size);
        if larger < here {
            lemma_units_increase(larger, here);
        }
    }
}

/// A mean that is moved on by a number's share of its distance stays between the
/// two of them.
pub proof fn lemma_mean_stays_between(a: Double, b: Double, count: nat)
    requires
        a.finite(),
        b.finite(),
        !a.negative(),
        !b.negative(),
        2 <= count < 0x8000_0000_0000_0000_0000_0000_0000_0000,
    ensures
        ({
            let mean = a.sum(b.difference(a).quotient(Double::integer(count)));
            &&& a.at_most(b) ==> a.at_most(mean) && mean.at_most(b)
            &&& b.at_most(a) ==> b.at_most(mean) && mean.at_most(a)
        }),
{
    let step = b.difference(a).quotient(Double::integer(count));
    let exact = a.value() + step.value();
    let both = a.negative() && step.negative();
    lemma_share_of_distance(a, b, count);
    lemma_order_is_numeric(a, b);
    lemma_number_rounds_to_itself(a, false);
    lemma_number_rounds_to_itself(b, false);
    if b.value() >= a.value() {
        lemma_rounded_sum_grows(a.value(), exact, false, both);
        lemma_rounded_sum_grows(exact, b.value(), both, false);
    }
    if b.value() <= a.value() {
        lemma_rounded_sum_grows(b.value(), exact, false, both);
        lemma_rounded_sum_grows(exact, a.value(), both, false);
    }
}

} // verus!
