//! Reading of double-precision numbers from decimal text.

use crate::arithmetic::{lemma_quotient_scaled, NO_NUMBER};
use crate::double::{lemma_units_at, lemma_units_step, units, Double, FINEST, HIDDEN, INFINITE};
use crate::natural::{compared, multiply_add, multiply_power, number, proper};
use crate::rounding::{lemma_exact, lemma_nearest, lemma_powers, nearest, round, rounds_to};
use crate::text::{
    all_digits, ascii_lowercase, copied, digit_value, digits_value, is_digit,
    lemma_digits_value_grows, lowered, spells,
};
use vstd::arithmetic::power::{
    lemma_pow0, lemma_pow1, lemma_pow_adds, lemma_pow_increases, lemma_pow_positive, pow,
};
use vstd::arithmetic::power2::{lemma2_to64, lemma_pow2, lemma_pow2_adds, lemma_pow2_pos, pow2};
use vstd::prelude::*;
use vstd::slice::slice_subrange;

verus! {

// ---------------------------------------------------------------------------
// What a text writes
// ---------------------------------------------------------------------------

/// How many digits a text starts with.
pub open spec fn digit_run(s: Seq<char>) -> nat
    decreases s.len(),
{
    if s.len() == 0 || !is_digit(s[0]) {
        0
    } else {
        1 + digit_run(s.skip(1))
    }
}

/// A row of digits and the power of ten that counts its last one.
#[verifier::ext_equal]
pub struct Written {
    pub digits: Seq<char>,
    pub exponent: int,
}

/// The exponent that the end of a number writes: nothing, or the letter `e`, a
/// sign or none, and digits.
pub open spec fn exponent(s: Seq<char>) -> Option<int> {
    if s.len() == 0 {
        Some(0)
    } else if s[0] != 'e' && s[0] != 'E' {
        None
    } else {
        let signed = s.len() > 1 && (s[1] == '-' || s[1] == '+');
        let digits = if signed {
            s.skip(2)
        } else {
            s.skip(1)
        };
        if !all_digits(digits) {
            None
        } else if signed && s[1] == '-' {
            Some(-(digits_value(digits) as int))
        } else {
            Some(digits_value(digits) as int)
        }
    }
}

/// The digits behind the point of a number.
pub open spec fn fraction(s: Seq<char>) -> Seq<char> {
    let rest = s.skip(digit_run(s) as int);
    if rest.len() > 0 && rest[0] == '.' {
        rest.skip(1).take(digit_run(rest.skip(1)) as int)
    } else {
        Seq::empty()
    }
}

/// What stands behind the digits of a number.
pub open spec fn behind_digits(s: Seq<char>) -> Seq<char> {
    let rest = s.skip(digit_run(s) as int);
    if rest.len() > 0 && rest[0] == '.' {
        rest.skip(1 + digit_run(rest.skip(1)) as int)
    } else {
        rest
    }
}

/// The number that a text without a sign writes: digits, with or without a point
/// among them, and an exponent or none.
pub open spec fn written(s: Seq<char>) -> Option<Written> {
    let digits = s.take(digit_run(s) as int) + fraction(s);
    match exponent(behind_digits(s)) {
        Some(power) => if digits.len() == 0 {
            None
        } else {
            Some(Written { digits, exponent: power - fraction(s).len() })
        },
        None => None,
    }
}

/// The powers of ten above and below the line of the fraction.
pub open spec fn power_above(exponent: int) -> nat {
    pow(
        10,
        if exponent > 0 {
            exponent as nat
        } else {
            0
        },
    ) as nat
}

impl Written {
    /// The size of the number nearest to what is written.
    pub open spec fn size(self) -> nat {
        nearest(
            digits_value(self.digits) * power_above(self.exponent) * pow2(FINEST as nat),
            power_above(-self.exponent),
        )
    }
}

/// The number that a text writes, with a sign before it or none.
pub open spec fn parsed(s: Seq<char>) -> Option<Double> {
    let signed = s.len() > 0 && (s[0] == '-' || s[0] == '+');
    let negative = signed && s[0] == '-';
    let body = if signed {
        s.skip(1)
    } else {
        s
    };
    match written(body) {
        Some(number) => Some(Double::signed_size(negative, number.size())),
        None => {
            let word = ascii_lowercase(body);
            if word == "inf"@ || word == "infinity"@ {
                Some(Double::signed_size(negative, INFINITE as nat))
            } else if word == "nan"@ {
                Some(Double::signed_size(negative, NO_NUMBER as nat))
            } else {
                None
            }
        },
    }
}

// ---------------------------------------------------------------------------
// Rows of digits
// ---------------------------------------------------------------------------

fn digits_at(s: &[char], start: usize) -> (result: usize)
    requires
        start <= s@.len(),
    ensures
        start <= result <= s@.len(),
        result - start == digit_run(s@.skip(start as int)),
        forall|i: int| start <= i < result ==> is_digit(#[trigger] s@[i]),
    decreases s@.len() - start,
{
    if start == s.len() {
        return start;
    }
    match s[start] {
        '0'..='9' => {},
        _ => {
            return start;
        },
    }
    let result: usize = digits_at(s, start + 1);
    assert(s@.skip(start as int).skip(1) =~= s@.skip(start as int + 1));
    result
}

/// What a row of digits counts, or the limit where it counts more.
fn limited(s: &[char], limit: u128) -> (result: u128)
    requires
        forall|i: int| 0 <= i < s@.len() ==> is_digit(#[trigger] s@[i]),
        limit <= 0x100_0000_0000_0000_0000_0000_0000_0000,
    ensures
        result <= limit,
        result < limit ==> result == digits_value(s@),
        result == limit ==> digits_value(s@) >= limit,
{
    let mut value: u128 = 0;
    let mut i: usize = 0;
    while i < s.len()
        invariant
            i <= s@.len(),
            forall|j: int| 0 <= j < s@.len() ==> is_digit(#[trigger] s@[j]),
            value == digits_value(s@.take(i as int)),
            value <= limit <= 0x100_0000_0000_0000_0000_0000_0000_0000,
        decreases s@.len() - i,
    {
        let c: char = s[i];
        assert(is_digit(s@[i as int]));
        let digit: u128 = (c as u8 - 48) as u128;
        assert(s@.take(i + 1).drop_last() == s@.take(i as int));
        let next: u128 = value * 10 + digit;
        if next >= limit {
            proof {
                lemma_digits_value_grows(s@, i + 1);
            }
            return limit;
        }
        value = next;
        i += 1;
    }
    assert(s@.take(i as int) == s@);
    value
}

/// A row of digits counts less than the power of ten that its length makes, and
/// no less than the one before where it does not start with zero.
proof fn lemma_digits_bounds(s: Seq<char>)
    requires
        forall|i: int| 0 <= i < s.len() ==> is_digit(#[trigger] s[i]),
    ensures
        digits_value(s) < pow(10, s.len()),
        s.len() > 0 && s[0] != '0' ==> digits_value(s) >= pow(10, (s.len() - 1) as nat),
    decreases s.len(),
{
    lemma_pow0(10);
    if s.len() > 0 {
        let less = s.drop_last();
        lemma_digits_bounds(less);
        assert(is_digit(s.last()));
        assert(digit_value(s.last()) <= 9);
        lemma_pow_adds(10, 1, less.len());
        lemma_pow1(10);
        if s[0] != '0' {
            if s.len() == 1 {
                assert(digits_value(less) == 0);
                assert(is_digit(s[0]));
            } else {
                assert(less[0] == s[0]);
                lemma_pow_adds(10, 1, (less.len() - 1) as nat);
            }
        }
    }
}

/// Zeros before a row of digits change nothing.
proof fn lemma_zeros_before(s: Seq<char>, n: int)
    requires
        0 <= n <= s.len(),
        forall|i: int| 0 <= i < n ==> s[i] == '0',
    ensures
        digits_value(s) == digits_value(s.skip(n)),
    decreases s.len(),
{
    if s.len() == 0 {
        assert(s.skip(n) =~= s);
    } else if n == s.len() {
        let less = s.drop_last();
        lemma_zeros_before(less, n - 1);
        assert(less.skip(n - 1) =~= Seq::<char>::empty());
        assert(s.skip(n) =~= Seq::<char>::empty());
        assert(s.last() == '0');
        assert(digit_value('0') == 0);
    } else {
        let less = s.drop_last();
        lemma_zeros_before(less, n);
        assert(s.skip(n).drop_last() =~= less.skip(n));
        assert(s.skip(n).last() == s.last());
    }
}

// ---------------------------------------------------------------------------
// Rounding what is written
// ---------------------------------------------------------------------------

/// Ten to a power is at least eight to it.
proof fn lemma_ten_and_two(n: nat)
    ensures
        pow(10, 3 * n) >= pow2(9 * n),
    decreases n,
{
    if n == 0 {
        lemma_pow0(10);
        lemma_powers();
    } else {
        let less = (n - 1) as nat;
        lemma_ten_and_two(less);
        lemma_pow_adds(10, 3 * less, 3);
        lemma_pow2_adds(9 * less, 9);
        lemma2_to64();
        assert(pow(10, 3) == 1000) by {
            reveal_with_fuel(pow, 4);
        }
        let p = pow(10, 3 * less);
        let q = pow2(9 * less);
        assert(p * 1000 >= q * 512) by (nonlinear_arith)
            requires
                p >= q,
                q >= 0,
        ;
    }
}

/// What is at least ten to the power of 342 rounds to infinity.
proof fn lemma_too_large(value: nat, length: nat, e: int)
    requires
        length > 0,
        value >= pow(10, (length - 1) as nat),
        length - 1 + e >= 342,
    ensures
        rounds_to(
            value * power_above(e) * pow2(FINEST as nat),
            power_above(-e),
            INFINITE as nat,
        ),
{
    let above = power_above(e);
    let below = power_above(-e);
    let one = pow2(1074);
    let num = value * above * one;
    let top = INFINITE as nat;
    let up: nat = if e > 0 {
        e as nat
    } else {
        0
    };
    let down: nat = if e > 0 {
        0
    } else {
        (-e) as nat
    };
    lemma_pow_positive(10, up);
    lemma_pow_positive(10, down);
    lemma_pow0(10);
    lemma_ten_and_two(114);
    lemma_pow_adds(10, (length - 1) as nat, up);
    lemma_pow_adds(10, 342, down);
    if 342 + down < length - 1 + up {
        lemma_pow_increases(10, 342 + down, (length - 1 + up) as nat);
    }
    let big = pow(10, 342);
    let first = pow(10, (length - 1) as nat);
    assert(value * above >= first * above) by (nonlinear_arith)
        requires
            value >= first,
            above >= 0,
    ;
    assert(value * above >= big * below);
    // Two to the power of 1026, and so of 1024, is what infinity counts.
    lemma_units_at(2046, HIDDEN as nat);
    lemma_powers();
    lemma_pow2_adds(52, 2046);
    lemma_pow2_adds(1024, 1074);
    lemma_pow2_adds(1024, 2);
    lemma2_to64();
    let u = units(top);
    assert(u == pow2(1024) * one);
    assert(big >= pow2(1024));
    assert(num >= u * below) by (nonlinear_arith)
        requires
            num == value * above * one,
            value * above >= big * below,
            big >= pow2(1024),
            u == pow2(1024) * one,
            below >= 0,
            one >= 0,
    {
        assert(value * above * one >= big * below * one);
        assert(big * below >= pow2(1024) * below);
        assert(big * below * one >= pow2(1024) * below * one);
        assert(pow2(1024) * below * one == u * below);
    }
    lemma_units_step((top - 1) as nat);
    let before = units((top - 1) as nat);
    assert((before + u) * below < 2 * num) by (nonlinear_arith)
        requires
            num >= u * below,
            before < u,
            below > 0,
    ;
}

/// What is below ten to the power of -360 rounds to zero.
proof fn lemma_too_small(value: nat, length: nat, e: int)
    requires
        value < pow(10, length),
        length + e <= -360,
    ensures
        rounds_to(value * power_above(e) * pow2(FINEST as nat), power_above(-e), 0),
{
    let above = power_above(e);
    let below = power_above(-e);
    let one = pow2(1074);
    let num = value * above * one;
    let down = (-e) as nat;
    lemma_pow0(10);
    assert(above == 1);
    lemma_ten_and_two(120);
    lemma_pow_adds(10, length, 360);
    lemma_pow_positive(10, length);
    if length + 360 < down {
        lemma_pow_increases(10, length + 360, down);
    }
    lemma_pow2_adds(1074, 6);
    lemma_pow2_pos(1074);
    lemma2_to64();
    let small = pow(10, 360);
    let limit = pow(10, length);
    assert(small >= one * 64);
    assert(limit * small <= below);
    assert(value * 1 == value);
    assert(2 * num < below) by (nonlinear_arith)
        requires
            num == value * one,
            value < limit,
            small >= one * 64,
            limit * small <= below,
            one > 0,
            limit > 0,
    {
        assert(value * one <= limit * one);
        assert(limit * small >= limit * (one * 64));
        assert(limit * one > 0);
    }
    lemma_units_at(0, 1);
    lemma_units_at(0, 0);
    lemma_powers();
    assert(units(0) + units(1) == 1);
    assert(1 * below == below);
}

/// The size nearest to a short row of digits times a power of ten, where both fit.
fn short_size(value: u64, e: i32) -> (result: u64)
    requires
        value > 0,
        -19 <= e <= 18,
    ensures
        result <= INFINITE,
        result == nearest(
            value as nat * power_above(e as int) * pow2(FINEST as nat),
            power_above(-e),
        ),
{
    let ghost num = value as nat * power_above(e as int) * pow2(FINEST as nat);
    let ghost den = power_above(-e);
    proof {
        lemma_pow0(10);
        lemma_powers();
    }
    if e >= 0 {
        let factor: u128 = ten_to(e as u32);
        proof {
            lemma_pow_adds(10, 1, 18);
            lemma_pow1(10);
            lemma_ten_to_19();
            if e < 18 {
                lemma_pow_increases(10, e as nat, 18);
            }
        }
        assert(value * factor <= 0xffff_ffff_ffff_ffff * 1_000_000_000_000_000_000)
            by (nonlinear_arith)
            requires
                value <= 0xffff_ffff_ffff_ffff,
                factor <= 1_000_000_000_000_000_000,
        ;
        let m: u128 = value as u128 * factor;
        assert(num * 1 == num);
        assert(m as nat * pow2(1074) * 1 == num);
        return round(m, 1074, false, Ghost(num), Ghost(den));
    }
    let divisor: u128 = ten_to((-e) as u32);
    let (dividend, shift) = Double::normalised(value);
    let q: u128 = dividend / divisor;
    let rest: u128 = dividend % divisor;
    proof {
        vstd::arithmetic::div_mod::lemma_fundamental_div_mod(dividend as int, divisor as int);
        assert(q * divisor <= dividend) by (nonlinear_arith)
            requires
                dividend == divisor * q + rest,
                rest >= 0,
        ;
        assert(dividend < (q + 1) * divisor) by (nonlinear_arith)
            requires
                dividend == divisor * q + rest,
                rest < divisor,
        ;
        assert(rest > 0 ==> q * divisor < dividend) by (nonlinear_arith)
            requires
                dividend == divisor * q + rest,
        ;
        assert(rest == 0 ==> q * divisor == dividend) by (nonlinear_arith)
            requires
                dividend == divisor * q + rest,
        ;
        assert(q >= 0x80_0000_0000_0000) by (nonlinear_arith)
            requires
                dividend < (q + 1) * divisor,
                divisor <= 10_000_000_000_000_000_000,
                dividend >= 0x2000_0000_0000_0000_0000_0000_0000_0000,
        ;
        assert(q <= dividend) by (nonlinear_arith)
            requires
                q * divisor <= dividend,
                divisor >= 1,
        ;
        lemma_quotient_scaled(value as nat, 0, divisor as nat, 0, shift as nat, q as nat, rest > 0);
        assert(value as nat * 1 == value);
        assert(divisor as nat * 1 == divisor);
    }
    round(q, 1074 - shift, rest > 0, Ghost(num), Ghost(den))
}

proof fn lemma_ten_to_19()
    ensures
        pow(10, 19) == 10_000_000_000_000_000_000,
{
    lemma_pow_adds(10, 10, 9);
    assert(pow(10, 9) == 1_000_000_000 && pow(10, 10) == 10_000_000_000) by {
        reveal_with_fuel(pow, 11);
    }
}

fn ten_to(n: u32) -> (result: u128)
    requires
        n <= 19,
    ensures
        result == pow(10, n as nat),
        0 < result <= 10_000_000_000_000_000_000,
{
    let mut result: u128 = 1;
    let mut i: u32 = 0;
    proof {
        lemma_pow0(10);
        lemma_ten_to_19();
    }
    while i < n
        invariant
            i <= n <= 19,
            result == pow(10, i as nat),
            0 < result <= 10_000_000_000_000_000_000,
            pow(10, 19) == 10_000_000_000_000_000_000,
        decreases n - i,
    {
        proof {
            lemma_pow_adds(10, 1, i as nat);
            lemma_pow1(10);
            if i + 1 < 19 {
                lemma_pow_increases(10, (i + 1) as nat, 19);
            }
        }
        result = result * 10;
        i += 1;
    }
    result
}

/// Whether what is written lies below the middle between a size and the next,
/// or on it where the size is even.
spec fn stays_at(num: nat, den: nat, size: nat) -> bool {
    let middle = (units(size) + units(size + 1)) * den;
    2 * num < middle || (2 * num == middle && size % 2 == 0)
}

fn tried(twice: &Vec<u32>, below: &Vec<u32>, size: u64, Ghost(num): Ghost<nat>, Ghost(den): Ghost<
    nat,
>) -> (result: bool)
    requires
        size < INFINITE,
        proper(twice@, 0x1_0000_0000),
        proper(below@, 0x1_0000_0000),
        number(twice@, 0x1_0000_0000) == 2 * num,
        number(below@, 0x1_0000_0000) == den,
    ensures
        result == stays_at(num, den, size as nat),
{
    let exponent: u64 = size / HIDDEN;
    let fraction: u64 = size % HIDDEN;
    let mantissa: u64 = if exponent == 0 {
        fraction
    } else {
        HIDDEN + fraction
    };
    let scale: u64 = if exponent == 0 {
        0
    } else {
        exponent - 1
    };
    let odd: u64 = 2 * mantissa + 1;
    let mut product: Vec<u32> = below.clone();
    assert(product@ =~= below@);
    multiply_add(&mut product, 0x1_0000_0000, odd, 0);
    multiply_power(&mut product, 0x1_0000_0000, 2, scale as u128);
    proof {
        lemma_units_at(scale as nat, mantissa as nat);
        lemma_units_at(scale as nat, (mantissa + 1) as nat);
        lemma_pow2(scale as nat);
        let p = pow2(scale as nat);
        let m = mantissa as nat;
        assert((m * p + (m + 1) * p) * den == (den * odd + 0) * p) by (nonlinear_arith)
            requires
                odd == 2 * m + 1,
        ;
        assert(size % 2 == mantissa % 2);
    }
    let (less, equal): (bool, bool) = compared(twice, &product, 0x1_0000_0000);
    less || (equal && size % 2 == 0)
}

/// The size nearest to a row of digits times a power of ten.
fn long_size(digits: &[char], e: i128) -> (result: u64)
    requires
        forall|i: int| 0 <= i < digits@.len() ==> is_digit(#[trigger] digits@[i]),
        -0x10_0000_0000_0000_0000_0000 < e < 0x10_0000_0000_0000_0000_0000,
    ensures
        result <= INFINITE,
        result == nearest(
            digits_value(digits@) * power_above(e as int) * pow2(FINEST as nat),
            power_above(-e),
        ),
{
    let ghost value = digits_value(digits@);
    let ghost num = value * power_above(e as int) * pow2(FINEST as nat);
    let ghost den = power_above(-e);
    let mut twice: Vec<u32> = Vec::new();
    let mut i: usize = 0;
    assert(digits@.take(0) =~= Seq::<char>::empty());
    while i < digits.len()
        invariant
            i <= digits@.len(),
            forall|j: int| 0 <= j < digits@.len() ==> is_digit(#[trigger] digits@[j]),
            proper(twice@, 0x1_0000_0000),
            number(twice@, 0x1_0000_0000) == digits_value(digits@.take(i as int)),
        decreases digits@.len() - i,
    {
        let c: char = digits[i];
        assert(is_digit(digits@[i as int]));
        multiply_add(&mut twice, 0x1_0000_0000, 10, (c as u8 - 48) as u64);
        i += 1;
        assert(digits@.take(i as int).drop_last() =~= digits@.take(i - 1));
    }
    assert(digits@.take(i as int) =~= digits@);
    let mut below: Vec<u32> = Vec::new();
    below.push(1);
    proof {
        assert(number(below@.skip(1), 0x1_0000_0000) == 0);
        assert(number(below@, 0x1_0000_0000) == 1);
        lemma_pow0(10);
    }
    if e > 0 {
        multiply_power(&mut twice, 0x1_0000_0000, 10, e as u128);
    } else {
        multiply_power(&mut below, 0x1_0000_0000, 10, (-e) as u128);
    }
    proof {
        if e > 0 {
            lemma_pow_positive(10, e as nat);
        } else {
            lemma_pow_positive(10, (-e) as nat);
        }
        assert(1 * den == den);
        assert(value * 1 == value);
        assert(number(twice@, 0x1_0000_0000) == value * power_above(e as int));
    }
    multiply_power(&mut twice, 0x1_0000_0000, 2, 1075);
    proof {
        lemma_pow2(1075);
        lemma_pow2_adds(1, 1074);
        lemma2_to64();
        let x = value * power_above(e as int);
        assert(x * (2 * pow2(1074)) == 2 * (x * pow2(1074))) by (nonlinear_arith);
    }
    let mut low: u64 = 0;
    let mut high: u64 = INFINITE;
    while low < high
        invariant
            low <= high <= INFINITE,
            proper(twice@, 0x1_0000_0000),
            proper(below@, 0x1_0000_0000),
            number(twice@, 0x1_0000_0000) == 2 * num,
            number(below@, 0x1_0000_0000) == den,
            low > 0 ==> !stays_at(num, den, (low - 1) as nat),
            high < INFINITE ==> stays_at(num, den, high as nat),
        decreases high - low,
    {
        let middle: u64 = low + (high - low) / 2;
        if tried(&twice, &below, middle, Ghost(num), Ghost(den)) {
            high = middle;
        } else {
            low = middle + 1;
        }
    }
    proof {
        if e <= 0 {
            lemma_pow_positive(10, (-e) as nat);
        }
        assert(rounds_to(num, den, low as nat));
        lemma_nearest(num, den, low as nat);
    }
    low
}

/// The size nearest to a row of digits times a power of ten.
fn written_size(digits: &[char], e: i128) -> (result: u64)
    requires
        forall|i: int| 0 <= i < digits@.len() ==> is_digit(#[trigger] digits@[i]),
        -0x10_0000_0000_0000_0000_0000 < e < 0x10_0000_0000_0000_0000_0000,
    ensures
        result <= INFINITE,
        result == (Written { digits: digits@, exponent: e as int }).size(),
{
    let ghost value = digits_value(digits@);
    let ghost num = value * power_above(e as int) * pow2(FINEST as nat);
    let ghost den = power_above(-e);
    let mut start: usize = 0;
    while start < digits.len() && digits[start] == '0'
        invariant
            start <= digits@.len(),
            forall|i: int| 0 <= i < start ==> digits@[i] == '0',
        decreases digits@.len() - start,
    {
        start += 1;
    }
    let body: &[char] = slice_subrange(digits, start, digits.len());
    proof {
        assert(body@ =~= digits@.skip(start as int));
        lemma_zeros_before(digits@, start as int);
        lemma_digits_bounds(body@);
        lemma_pow0(10);
        if e < 0 {
            lemma_pow_positive(10, (-e) as nat);
        }
    }
    let length: i128 = body.len() as i128;
    if length == 0 {
        proof {
            assert(value == 0);
            assert(0 * power_above(e as int) == 0) by (nonlinear_arith);
            assert(0 * pow2(FINEST as nat) == 0) by (nonlinear_arith);
            lemma_exact(0, den);
            assert(0 * den == 0) by (nonlinear_arith);
            lemma_nearest(num, den, 0);
        }
        return 0;
    }
    assert(body@[0] != '0');
    if length - 1 + e >= 342 {
        proof {
            lemma_too_large(value, length as nat, e as int);
            lemma_nearest(num, den, INFINITE as nat);
        }
        return INFINITE;
    }
    if length + e <= -360 {
        proof {
            lemma_too_small(value, length as nat, e as int);
            lemma_nearest(num, den, 0);
        }
        return 0;
    }
    if length <= 19 && e >= -19 && e <= 18 {
        let short: u128 = limited(body, 0x1_0000_0000_0000_0000);
        proof {
            lemma_ten_to_19();
            if length < 19 {
                lemma_pow_increases(10, length as nat, 19);
            }
            lemma_pow_positive(10, (length - 1) as nat);
        }
        return short_size(short as u64, e as i32);
    }
    long_size(body, e)
}

// ---------------------------------------------------------------------------
// Reading
// ---------------------------------------------------------------------------

/// Reads what the end of a number says of its exponent: `None` where it is no
/// exponent. One that is out of any reach is cut short.
fn read_exponent(s: &[char]) -> (result: Option<i128>)
    ensures
        result is None <==> exponent(s@) is None,
        result matches Some(value) ==> ({
            let exact = exponent(s@)->0;
            &&& -0x1_0000_0000_0000_0000_0000 <= value <= 0x1_0000_0000_0000_0000_0000
            &&& value == exact || (value == 0x1_0000_0000_0000_0000_0000 && exact > value) || (value
                == -0x1_0000_0000_0000_0000_0000 && exact < value)
        }),
{
    if s.len() == 0 {
        return Some(0);
    }
    if s[0] != 'e' && s[0] != 'E' {
        return None;
    }
    let signed: bool = s.len() > 1 && (s[1] == '-' || s[1] == '+');
    let start: usize = if signed {
        2
    } else {
        1
    };
    let digits: &[char] = slice_subrange(s, start, s.len());
    assert(digits@ =~= s@.skip(start as int));
    let end: usize = digits_at(digits, 0);
    proof {
        assert(digits@.skip(0) =~= digits@);
        if end < digits@.len() {
            lemma_run_ends(digits@);
        }
    }
    if digits.len() == 0 || end < digits.len() {
        return None;
    }
    let value: u128 = limited(digits, 0x1_0000_0000_0000_0000_0000);
    if signed && s[1] == '-' {
        Some(-(value as i128))
    } else {
        Some(value as i128)
    }
}

/// The first digits of a text end before something else.
proof fn lemma_run_ends(s: Seq<char>)
    requires
        digit_run(s) < s.len(),
    ensures
        !is_digit(s[digit_run(s) as int]),
    decreases s.len(),
{
    if s.len() > 0 && is_digit(s[0]) {
        lemma_run_ends(s.skip(1));
    }
}

/// A larger exponent than any that is told apart gives the same size.
proof fn lemma_cut_exponent(digits: Seq<char>, cut: int, exact: int)
    requires
        forall|i: int| 0 <= i < digits.len() ==> is_digit(#[trigger] digits[i]),
        digits.len() < 0x4000_0000_0000_0000_0000,
        cut == exact || (cut >= 0x4000_0000_0000_0000_0000 && exact > cut) || (cut
            <= -0x4000_0000_0000_0000_0000 - 400 && exact < cut),
    ensures
        (Written { digits, exponent: cut }).size() == (Written { digits, exponent: exact }).size(),
{
    if cut != exact {
        lemma_far_exponent(digits, cut);
        lemma_far_exponent(digits, exact);
    }
}

proof fn lemma_far_exponent(digits: Seq<char>, e: int)
    requires
        forall|i: int| 0 <= i < digits.len() ==> is_digit(#[trigger] digits[i]),
        digits.len() < 0x4000_0000_0000_0000_0000,
        e >= 0x4000_0000_0000_0000_0000 || e <= -0x4000_0000_0000_0000_0000 - 400,
    ensures
        (Written { digits, exponent: e }).size() == if e > 0 && digits_value(digits) > 0 {
            INFINITE as nat
        } else {
            0
        },
{
    let value = digits_value(digits);
    let num = value * power_above(e) * pow2(FINEST as nat);
    let den = power_above(-e);
    lemma_pow0(10);
    if e < 0 {
        lemma_pow_positive(10, (-e) as nat);
    }
    if value == 0 {
        assert(0 * power_above(e) == 0) by (nonlinear_arith);
        assert(0 * pow2(FINEST as nat) == 0) by (nonlinear_arith);
        lemma_exact(0, den);
        assert(0 * den == 0) by (nonlinear_arith);
        lemma_nearest(num, den, 0);
    } else if e > 0 {
        lemma_too_large(value, 1, e);
        lemma_nearest(num, den, INFINITE as nat);
    } else {
        lemma_digits_bounds(digits);
        lemma_too_small(value, digits.len(), e);
        lemma_nearest(num, den, 0);
    }
}

/// The digits of a number, how many of them stand behind the point, and where they
/// end.
fn read_digits(s: &[char]) -> (result: (Vec<char>, usize, usize))
    ensures
        result.0@ == s@.take(digit_run(s@) as int) + fraction(s@),
        result.1 == fraction(s@).len(),
        result.2 <= s@.len(),
        s@.skip(result.2 as int) == behind_digits(s@),
        forall|i: int| 0 <= i < result.0@.len() ==> is_digit(#[trigger] result.0@[i]),
{
    let whole: usize = digits_at(s, 0);
    assert(s@.skip(0) =~= s@);
    let ghost rest = s@.skip(whole as int);
    let mut digits: Vec<char> = copied(slice_subrange(s, 0, whole));
    assert(digits@ =~= s@.take(whole as int));
    if whole == s.len() || s[whole] != '.' {
        assert(digits@ =~= s@.take(whole as int) + fraction(s@));
        return (digits, 0, whole);
    }
    let from: usize = whole + 1;
    let end: usize = digits_at(s, from);
    assert(rest.skip(1) =~= s@.skip(from as int));
    let mut i: usize = from;
    while i < end
        invariant
            from <= i <= end <= s@.len(),
            digits@ == s@.take(whole as int) + s@.subrange(from as int, i as int),
        decreases end - i,
    {
        digits.push(s[i]);
        i += 1;
        assert(digits@ =~= s@.take(whole as int) + s@.subrange(from as int, i as int));
    }
    assert(fraction(s@) =~= s@.subrange(from as int, end as int));
    assert(s@.skip(end as int) =~= behind_digits(s@));
    assert forall|j: int| 0 <= j < digits@.len() implies is_digit(#[trigger] digits@[j]) by {
        if j < whole {
            assert(is_digit(s@[j]));
        } else {
            assert(is_digit(s@[from + j - whole]));
        }
    }
    (digits, end - from, end)
}

fn read_written(s: &[char]) -> (result: Option<u64>)
    ensures
        result is None <==> written(s@) is None,
        result matches Some(size) ==> size <= INFINITE && size == written(s@)->0.size(),
{
    let (digits, places, end): (Vec<char>, usize, usize) = read_digits(s);
    if digits.len() == 0 {
        return None;
    }
    match read_exponent(slice_subrange(s, end, s.len())) {
        None => None,
        Some(value) => {
            let e: i128 = value - places as i128;
            proof {
                assert(s@.subrange(end as int, s@.len() as int) =~= behind_digits(s@));
                lemma_cut_exponent(digits@, e as int, exponent(behind_digits(s@))->0 - places);
            }
            Some(written_size(digits.as_slice(), e))
        },
    }
}

impl Double {
    /// Reads a number in decimal digits, `inf`, `infinity` or `nan`.
    pub fn parse(s: &[char]) -> (result: Option<Self>)
        ensures
            result == parsed(s@),
    {
        let signed: bool = s.len() > 0 && (s[0] == '-' || s[0] == '+');
        let negative: bool = signed && s[0] == '-';
        let body: &[char] = if signed {
            slice_subrange(s, 1, s.len())
        } else {
            s
        };
        assert(body@ =~= if signed {
            s@.skip(1)
        } else {
            s@
        });
        match read_written(body) {
            Some(size) => Some(Double::with_size(negative, size)),
            None => {
                let word: Vec<char> = lowered(body);
                if spells(word.as_slice(), "inf") || spells(word.as_slice(), "infinity") {
                    Some(Double::with_size(negative, INFINITE))
                } else if spells(word.as_slice(), "nan") {
                    Some(Double::with_size(negative, NO_NUMBER))
                } else {
                    None
                }
            },
        }
    }
}

// ---------------------------------------------------------------------------
// Laws
// ---------------------------------------------------------------------------

proof fn lemma_run_of_digits(digits: Seq<char>, rest: Seq<char>)
    requires
        forall|i: int| 0 <= i < digits.len() ==> is_digit(#[trigger] digits[i]),
        rest.len() > 0 ==> !is_digit(rest[0]),
    ensures
        digit_run(digits + rest) == digits.len(),
    decreases digits.len(),
{
    let all = digits + rest;
    if digits.len() > 0 {
        assert(is_digit(digits[0]));
        assert(all.skip(1) =~= digits.skip(1) + rest);
        assert forall|i: int| 0 <= i < digits.skip(1).len() implies is_digit(
            #[trigger] digits.skip(1)[i],
        ) by {
            assert(is_digit(digits[i + 1]));
        }
        lemma_run_of_digits(digits.skip(1), rest);
    } else {
        assert(all =~= rest);
    }
}

/// What two rows of digits count, one behind the other.
pub proof fn lemma_digits_behind(a: Seq<char>, b: Seq<char>)
    ensures
        digits_value(a + b) == digits_value(a) * pow(10, b.len()) + digits_value(b),
    decreases b.len(),
{
    lemma_pow0(10);
    if b.len() == 0 {
        assert(a + b =~= a);
    } else {
        let rest = b.drop_last();
        assert((a + b).drop_last() =~= a + rest);
        assert((a + b).last() == b.last());
        lemma_digits_behind(a, rest);
        lemma_pow_adds(10, rest.len(), 1);
        lemma_pow1(10);
        let x = digits_value(a);
        let p = pow(10, rest.len());
        assert((x * p) * 10 == x * (p * 10)) by (nonlinear_arith);
    }
}

/// Digits, a point and more digits are read as the number nearest to what they write, with or
/// without a minus sign before them.
pub proof fn lemma_numbers_are_read(whole: Seq<char>, rest: Seq<char>)
    requires
        all_digits(whole),
        all_digits(rest),
    ensures
        ({
            let count = digits_value(whole) * pow(10, rest.len()) + digits_value(rest);
            let size = nearest(
                (count * pow2(FINEST as nat)) as nat,
                pow(10, rest.len()) as nat,
            );
            &&& parsed(whole.push('.') + rest) == Some(Double::signed_size(false, size))
            &&& parsed(seq!['-'] + (whole.push('.') + rest)) == Some(
                Double::signed_size(true, size),
            )
        }),
{
    let s = whole.push('.') + rest;
    let tail = seq!['.'] + rest;
    assert(s =~= whole + tail);
    lemma_run_of_digits(whole, tail);
    assert(s.skip(whole.len() as int) =~= tail);
    assert(tail.skip(1) =~= rest);
    assert(rest =~= rest + Seq::<char>::empty());
    lemma_run_of_digits(rest, Seq::empty());
    assert(rest.take(rest.len() as int) =~= rest);
    assert(fraction(s) == rest);
    assert(s.take(whole.len() as int) =~= whole);
    assert(tail.skip(1 + rest.len() as int) =~= Seq::<char>::empty());
    assert(behind_digits(s) == Seq::<char>::empty());
    lemma_digits_behind(whole, rest);
    lemma_pow0(10);
    let number = Written { digits: whole + rest, exponent: -(rest.len() as int) };
    assert(written(s) == Some(number));
    let value = digits_value(whole + rest);
    assert(power_above(number.exponent) == 1);
    assert(value * 1 * pow2(FINEST as nat) == value * pow2(FINEST as nat)) by (nonlinear_arith);
    assert(is_digit(whole[0]));
    assert((seq!['-'] + s).skip(1) =~= s);
}

/// Digits alone are read as the number nearest to the integer that they write.
pub proof fn lemma_integers_are_read(digits: Seq<char>)
    requires
        all_digits(digits),
    ensures
        parsed(digits) == Some(Double::integer(digits_value(digits))),
{
    let s = digits;
    assert(s =~= digits + Seq::<char>::empty());
    lemma_run_of_digits(digits, Seq::empty());
    assert(s.skip(s.len() as int) =~= Seq::<char>::empty());
    assert(s.take(s.len() as int) =~= s);
    assert(fraction(s) == Seq::<char>::empty());
    assert(s + Seq::<char>::empty() =~= s);
    lemma_pow0(10);
    let number = Written { digits, exponent: 0 };
    assert(written(s) == Some(number));
    let value = digits_value(digits);
    assert(value * 1 * pow2(FINEST as nat) == value * pow2(FINEST as nat)) by (nonlinear_arith);
    assert(is_digit(s[0]));
}

/// An exponent moves the point: so many places to the right, or to the left where it has a
/// minus sign.
pub proof fn lemma_exponents_are_read(digits: Seq<char>, power: Seq<char>)
    requires
        all_digits(digits),
        all_digits(power),
    ensures
        ({
            let count = digits_value(digits);
            let ten = pow(10, digits_value(power)) as nat;
            let one = pow2(FINEST as nat);
            let larger = Double::signed_size(false, nearest(count * ten * one, 1));
            let smaller = Double::signed_size(false, nearest(count * one, ten));
            &&& parsed(digits.push('e') + power) == Some(larger)
            &&& parsed(digits.push('E') + power) == Some(larger)
            &&& parsed(digits.push('e').push('+') + power) == Some(larger)
            &&& parsed(digits.push('e').push('-') + power) == Some(smaller)
        }),
{
    lemma_exponent_behind(digits, seq!['e'], power);
    lemma_exponent_behind(digits, seq!['E'], power);
    lemma_exponent_behind(digits, seq!['e', '+'], power);
    lemma_exponent_behind(digits, seq!['e', '-'], power);
    assert(digits.push('e') + power =~= digits + seq!['e'] + power);
    assert(digits.push('E') + power =~= digits + seq!['E'] + power);
    assert(digits.push('e').push('+') + power =~= digits + seq!['e', '+'] + power);
    assert(digits.push('e').push('-') + power =~= digits + seq!['e', '-'] + power);
}

proof fn lemma_exponent_behind(digits: Seq<char>, mark: Seq<char>, power: Seq<char>)
    requires
        all_digits(digits),
        all_digits(power),
        1 <= mark.len() <= 2,
        mark[0] == 'e' || mark[0] == 'E',
        mark.len() == 2 ==> mark[1] == '+' || mark[1] == '-',
    ensures
        ({
            let count = digits_value(digits);
            let ten = pow(10, digits_value(power)) as nat;
            let one = pow2(FINEST as nat);
            parsed(digits + mark + power) == Some(
                Double::signed_size(
                    false,
                    if mark.len() == 2 && mark[1] == '-' {
                        nearest(count * one, ten)
                    } else {
                        nearest(count * ten * one, 1)
                    },
                ),
            )
        }),
{
    let end = mark + power;
    let count = digits_value(digits);
    let one = pow2(FINEST as nat);
    assert(is_digit(power[0]));
    assert(end[0] == mark[0]);
    assert(end[1] == if mark.len() == 2 {
        mark[1]
    } else {
        power[0]
    });
    assert(end.skip(mark.len() as int) =~= power);
    lemma_exponent_is_read(digits, end);
    assert(digits + mark + power =~= digits + end);
    lemma_pow0(10);
    assert(count * 1 * one == count * one) by (nonlinear_arith);
}

proof fn lemma_exponent_is_read(digits: Seq<char>, end: Seq<char>)
    requires
        all_digits(digits),
        end.len() > 0,
        end[0] == 'e' || end[0] == 'E',
        exponent(end) is Some,
    ensures
        parsed(digits + end) == Some(
            Double::signed_size(
                false,
                Written { digits, exponent: exponent(end)->0 }.size(),
            ),
        ),
{
    let s = digits + end;
    lemma_run_of_digits(digits, end);
    assert(s.skip(digits.len() as int) =~= end);
    assert(s.take(digits.len() as int) + Seq::<char>::empty() =~= digits);
    assert(is_digit(digits[0]));
    assert(s[0] == digits[0]);
}

} // verus!
