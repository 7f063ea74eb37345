//! Binary floating-point numbers of IEEE 754's double precision, held by their
//! bit patterns, with the order that the standard gives them.

use vstd::arithmetic::power2::{lemma_pow2_pos, lemma_pow2_unfold, pow2};
use vstd::prelude::*;

verus! {

/// The bit that makes a number negative.
pub const SIGN: u64 = 0x8000_0000_0000_0000;

/// The size of infinity. A larger size is no number.
pub const INFINITE: u64 = 0x7ff0_0000_0000_0000;

/// One more than the largest fraction: 2 to the power of 52.
pub const HIDDEN: u64 = 0x10_0000_0000_0000;

/// The exponent of two, without its sign, of the smallest number above zero.
pub const FINEST: u64 = 1074;

/// A double-precision number. Two values are `==` where their bit patterns are
/// the same; [`Double::same_number`] compares them as numbers.
#[derive(Clone, Copy, Debug, PartialEq, Eq, Structural)]
pub struct Double {
    /// The sign in the highest bit, then 11 bits of exponent and 52 of fraction.
    pub bits: u64,
}

/// How many times the smallest number above zero a number of this size is. The
/// size of infinity counts as the power of two behind the largest number.
pub open spec fn units(size: nat) -> nat {
    let exponent = size / HIDDEN as nat;
    let fraction = size % HIDDEN as nat;
    if exponent == 0 {
        fraction
    } else {
        (HIDDEN as nat + fraction) * pow2((exponent - 1) as nat)
    }
}

impl Double {
    pub open spec fn zero() -> Self {
        Double { bits: 0 }
    }

    /// The bit pattern without the sign.
    pub open spec fn size(self) -> nat {
        (self.bits % SIGN) as nat
    }

    pub open spec fn negative(self) -> bool {
        self.bits >= SIGN
    }

    pub open spec fn nan(self) -> bool {
        self.size() > INFINITE
    }

    pub open spec fn infinite(self) -> bool {
        self.size() == INFINITE
    }

    pub open spec fn finite(self) -> bool {
        self.size() < INFINITE
    }

    /// The number itself, counted in units of the smallest number above zero.
    pub open spec fn value(self) -> int {
        if self.negative() {
            -(units(self.size()) as int)
        } else {
            units(self.size()) as int
        }
    }

    /// Where the number stands in the order: zero is one place, whatever its sign.
    pub open spec fn rank(self) -> int {
        if self.negative() {
            -(self.size() as int)
        } else {
            self.size() as int
        }
    }

    /// Where the bit pattern stands in IEEE 754's total order.
    pub open spec fn total_rank(self) -> int {
        if self.negative() {
            -(self.size() as int) - 1
        } else {
            self.size() as int
        }
    }

    pub open spec fn less(self, other: Self) -> bool {
        !self.nan() && !other.nan() && self.rank() < other.rank()
    }

    pub open spec fn at_most(self, other: Self) -> bool {
        !self.nan() && !other.nan() && self.rank() <= other.rank()
    }

    pub open spec fn equals(self, other: Self) -> bool {
        !self.nan() && !other.nan() && self.rank() == other.rank()
    }

    /// The smaller of two numbers; the other one where one is no number. Of two
    /// zeros it is the negative one.
    pub open spec fn minimum(self, other: Self) -> Self {
        if self.nan() || (!other.nan() && other.total_rank() < self.total_rank()) {
            other
        } else {
            self
        }
    }

    /// The larger of two numbers; the other one where one is no number. Of two
    /// zeros it is the positive one.
    pub open spec fn maximum(self, other: Self) -> Self {
        if self.nan() || (!other.nan() && self.total_rank() < other.total_rank()) {
            other
        } else {
            self
        }
    }

    /// The nearest number to this one from `low` to `high`.
    pub open spec fn clamped(self, low: Self, high: Self) -> Self {
        if self.less(low) {
            low
        } else if high.less(self) {
            high
        } else {
            self
        }
    }

    /// The number without its sign.
    pub open spec fn magnitude(self) -> Self {
        Double { bits: (self.bits % SIGN) as u64 }
    }

    /// The number with the other sign.
    pub open spec fn opposite(self) -> Self {
        if self.negative() {
            Double { bits: (self.bits - SIGN) as u64 }
        } else {
            Double { bits: (self.bits + SIGN) as u64 }
        }
    }

    pub fn from_bits(bits: u64) -> (result: Self)
        ensures
            result.bits == bits,
    {
        Double { bits }
    }

    pub fn is_nan(self) -> (result: bool)
        ensures
            result == self.nan(),
    {
        self.bits % SIGN > INFINITE
    }

    pub fn is_finite(self) -> (result: bool)
        ensures
            result == self.finite(),
    {
        self.bits % SIGN < INFINITE
    }

    pub fn is_negative(self) -> (result: bool)
        ensures
            result == self.negative(),
    {
        self.bits >= SIGN
    }

    /// Where the number stands in the order.
    pub fn place(self) -> (result: i64)
        ensures
            result == self.rank(),
    {
        let size: i64 = (self.bits % SIGN) as i64;
        if self.bits >= SIGN {
            -size
        } else {
            size
        }
    }

    pub fn is_less(self, other: Self) -> (result: bool)
        ensures
            result == self.less(other),
    {
        !self.is_nan() && !other.is_nan() && self.place() < other.place()
    }

    pub fn is_at_most(self, other: Self) -> (result: bool)
        ensures
            result == self.at_most(other),
    {
        !self.is_nan() && !other.is_nan() && self.place() <= other.place()
    }

    pub fn same_number(self, other: Self) -> (result: bool)
        ensures
            result == self.equals(other),
    {
        !self.is_nan() && !other.is_nan() && self.place() == other.place()
    }

    /// Whether this bit pattern stands before the other in IEEE 754's total order.
    pub fn stands_before(self, other: Self) -> (result: bool)
        ensures
            result == (self.total_rank() < other.total_rank()),
    {
        let left: i64 = (self.bits % SIGN) as i64;
        let right: i64 = (other.bits % SIGN) as i64;
        if self.bits >= SIGN {
            other.bits < SIGN || right < left
        } else {
            other.bits < SIGN && left < right
        }
    }

    pub fn min(self, other: Self) -> (result: Self)
        ensures
            result == self.minimum(other),
    {
        if self.is_nan() || (!other.is_nan() && other.stands_before(self)) {
            other
        } else {
            self
        }
    }

    pub fn max(self, other: Self) -> (result: Self)
        ensures
            result == self.maximum(other),
    {
        if self.is_nan() || (!other.is_nan() && self.stands_before(other)) {
            other
        } else {
            self
        }
    }

    pub fn clamp(self, low: Self, high: Self) -> (result: Self)
        ensures
            result == self.clamped(low, high),
    {
        if self.is_less(low) {
            low
        } else if high.is_less(self) {
            high
        } else {
            self
        }
    }

    pub fn abs(self) -> (result: Self)
        ensures
            result == self.magnitude(),
    {
        Double { bits: self.bits % SIGN }
    }

    pub fn neg(self) -> (result: Self)
        ensures
            result == self.opposite(),
    {
        if self.bits >= SIGN {
            Double { bits: self.bits - SIGN }
        } else {
            Double { bits: self.bits + SIGN }
        }
    }
}

// ---------------------------------------------------------------------------
// Sizes and numbers
// ---------------------------------------------------------------------------

/// The size that a mantissa and a scale make up counts mantissa times a power of two.
pub proof fn lemma_units_at(scale: nat, mantissa: nat)
    requires
        mantissa <= 2 * HIDDEN,
        scale == 0 || mantissa >= HIDDEN,
    ensures
        units((scale * HIDDEN as nat + mantissa) as nat) == mantissa * pow2(scale),
{
    let size = (scale * HIDDEN as nat + mantissa) as nat;
    if mantissa < HIDDEN {
        assert(size / HIDDEN as nat == 0);
        assert(pow2(0) == 1) by {
            vstd::arithmetic::power2::lemma2_to64();
        }
    } else if mantissa < 2 * HIDDEN {
        assert(size / HIDDEN as nat == scale + 1);
        assert(size % HIDDEN as nat == mantissa - HIDDEN);
    } else {
        assert(size / HIDDEN as nat == scale + 2);
        assert(size % HIDDEN as nat == 0);
        lemma_pow2_unfold(scale + 1);
        assert(HIDDEN as nat * (2 * pow2(scale)) == 2 * HIDDEN as nat * pow2(scale))
            by (nonlinear_arith);
    }
}

/// Every size is made up of a mantissa and a scale.
pub proof fn lemma_parts(size: nat) -> (result: (nat, nat))
    ensures
        result.1 < 2 * HIDDEN,
        result.0 == 0 || result.1 >= HIDDEN,
        size == result.0 * HIDDEN as nat + result.1,
{
    let exponent = size / HIDDEN as nat;
    if exponent == 0 {
        (0, size)
    } else {
        ((exponent - 1) as nat, HIDDEN as nat + size % HIDDEN as nat)
    }
}

/// The next size counts more.
pub proof fn lemma_units_step(size: nat)
    ensures
        units(size) < units(size + 1),
{
    let (scale, mantissa) = lemma_parts(size);
    lemma_units_at(scale, mantissa);
    lemma_units_at(scale, mantissa + 1);
    lemma_pow2_pos(scale);
    assert((mantissa + 1) * pow2(scale) == mantissa * pow2(scale) + pow2(scale))
        by (nonlinear_arith);
}

/// A larger size counts more.
pub proof fn lemma_units_increase(small: nat, large: nat)
    requires
        small < large,
    ensures
        units(small) < units(large),
    decreases large - small,
{
    lemma_units_step(small);
    if small + 1 < large {
        lemma_units_increase(small + 1, large);
    }
}

/// The order of two finite numbers is the order of what they count.
pub proof fn lemma_order_is_numeric(a: Double, b: Double)
    requires
        a.finite(),
        b.finite(),
    ensures
        a.less(b) == (a.value() < b.value()),
        a.at_most(b) == (a.value() <= b.value()),
        a.equals(b) == (a.value() == b.value()),
{
    assert(units(0) == 0);
    if a.size() < b.size() {
        lemma_units_increase(a.size(), b.size());
    }
    if b.size() < a.size() {
        lemma_units_increase(b.size(), a.size());
    }
    if 0 < a.size() {
        lemma_units_increase(0, a.size());
    }
    if 0 < b.size() {
        lemma_units_increase(0, b.size());
    }
}

/// The smaller, the larger and the nearest of numbers are those of their values; a sign changes
/// nothing else.
pub proof fn lemma_choices_are_numeric(a: Double, b: Double)
    requires
        a.finite(),
        b.finite(),
    ensures
        a.minimum(b) == a || a.minimum(b) == b,
        a.minimum(b).value() <= a.value() && a.minimum(b).value() <= b.value(),
        a.maximum(b) == a || a.maximum(b) == b,
        a.maximum(b).value() >= a.value() && a.maximum(b).value() >= b.value(),
        a.opposite().value() == -a.value(),
        a.opposite().opposite() == a,
        a.magnitude().value() >= 0,
        a.magnitude().value() == a.value() || a.magnitude().value() == -a.value(),
{
    lemma_order_is_numeric(a, b);
    lemma_order_is_numeric(b, a);
    assert(units(0) == 0);
    assert((SIGN as int + a.bits) % (SIGN as int) == a.bits as int % SIGN as int || a.negative());
}

/// A number between bounds stays; one beyond them becomes the bound.
pub proof fn lemma_clamped_is_nearest(a: Double, low: Double, high: Double)
    requires
        a.finite(),
        low.finite(),
        high.finite(),
        low.value() <= high.value(),
    ensures
        low.value() <= a.value() <= high.value() ==> a.clamped(low, high) == a,
        a.value() < low.value() ==> a.clamped(low, high) == low,
        a.value() > high.value() ==> a.clamped(low, high) == high,
{
    lemma_order_is_numeric(a, low);
    lemma_order_is_numeric(high, a);
    lemma_order_is_numeric(low, high);
}

} // verus!
