//! Double-precision numbers as decimal text with a fixed number of places, and
//! as integers.

use crate::double::{lemma_units_at, units, Double, FINEST, HIDDEN};
use crate::natural::{
    digits_of, lemma_bound, lemma_padded, lemma_push, multiply_add, multiply_power, number, padded,
    proper,
};
use crate::rounding::{lemma_powers, power};
use crate::text::{decimal, digit_char, padded_decimal};
use vstd::arithmetic::div_mod::{lemma_fundamental_div_mod, lemma_fundamental_div_mod_converse};
use vstd::arithmetic::power::{
    lemma_pow0, lemma_pow1, lemma_pow_adds, lemma_pow_distributes, lemma_pow_increases,
    lemma_pow_positive, pow,
};
use vstd::arithmetic::power2::{
    lemma2_to64, lemma2_to64_rest, lemma_pow2, lemma_pow2_adds, lemma_pow2_pos,
    lemma_pow2_strictly_increases, pow2,
};
use vstd::prelude::*;

verus! {

/// The integer nearest to a fraction, halves to the even one.
pub open spec fn half_even(num: nat, den: nat) -> nat {
    let q = num / den;
    let r = num % den;
    if 2 * r > den || (2 * r == den && q % 2 == 1) {
        q + 1
    } else {
        q
    }
}

/// The integer nearest to a fraction, halves to the larger one.
pub open spec fn half_up(num: nat, den: nat) -> nat {
    (2 * num + den) / (2 * den)
}

/// An integer with so many of its digits behind a point.
pub open spec fn with_point(value: nat, places: nat) -> Seq<char> {
    let whole = pow(10, places) as nat;
    if places == 0 {
        decimal(value)
    } else {
        decimal(value / whole).push('.') + padded_decimal(value % whole, places)
    }
}

pub open spec fn saturated(value: nat) -> nat {
    if value > u64::MAX {
        u64::MAX as nat
    } else {
        value
    }
}

impl Double {
    /// The number times a power of ten, rounded to an integer without its sign.
    pub open spec fn scaled_integer(self, places: nat) -> nat {
        half_even(units(self.size()) * pow(10, places) as nat, pow2(FINEST as nat))
    }

    /// The number in decimal digits with so many places behind the point.
    pub open spec fn fixed(self, places: nat) -> Seq<char> {
        let sign = if self.negative() {
            seq!['-']
        } else {
            Seq::<char>::empty()
        };
        if self.nan() {
            "NaN"@
        } else if self.infinite() {
            sign + "inf"@
        } else {
            sign + with_point(self.scaled_integer(places), places)
        }
    }

    /// The number without what is behind its point, as a 64-bit integer.
    pub open spec fn truncated(self) -> nat {
        if self.nan() || self.negative() {
            0
        } else {
            saturated(units(self.size()) / pow2(FINEST as nat))
        }
    }

    /// The nearest 64-bit integer, halves away from zero.
    pub open spec fn nearest_integer(self) -> nat {
        if self.nan() || self.negative() {
            0
        } else {
            saturated(half_up(units(self.size()), pow2(FINEST as nat)))
        }
    }
}

// ---------------------------------------------------------------------------
// Integers
// ---------------------------------------------------------------------------

proof fn lemma_half_even_scaled(num: nat, den: nat, f: nat)
    requires
        den > 0,
        f > 0,
    ensures
        half_even(num * f, den * f) == half_even(num, den),
{
    let q = num / den;
    let r = num % den;
    lemma_fundamental_div_mod(num as int, den as int);
    assert(num * f == q * (den * f) + r * f) by (nonlinear_arith)
        requires
            num == den * q + r,
    ;
    assert(0 <= r * f < den * f) by (nonlinear_arith)
        requires
            0 <= r < den,
            f > 0,
    ;
    lemma_fundamental_div_mod_converse(
        (num * f) as int,
        (den * f) as int,
        q as int,
        (r * f) as int,
    );
    assert((2 * (r * f) > den * f) == (2 * r > den)) by (nonlinear_arith)
        requires
            f > 0,
    ;
    assert((2 * (r * f) == den * f) == (2 * r == den)) by (nonlinear_arith)
        requires
            f > 0,
    ;
}

proof fn lemma_half_even_whole(value: nat, den: nat)
    requires
        den > 0,
    ensures
        half_even(value * den, den) == value,
{
    lemma_fundamental_div_mod_converse((value * den) as int, den as int, value as int, 0);
}

/// `m / 2^k` times a power of ten, rounded to an integer.
fn shifted_down(m: u64, k: u32, factor: u64) -> (result: u128)
    requires
        m < 2 * HIDDEN,
        1 <= k <= 1074,
        factor <= 1_000_000_000_000_000_000,
    ensures
        result == half_even((m * factor) as nat, pow2(k as nat)),
{
    assert(m * factor <= 0x2_0000_0000_0000_0000_0000_0000_0000) by (nonlinear_arith)
        requires
            m < 0x20_0000_0000_0000,
            factor <= 1_000_000_000_000_000_000,
    ;
    let wide: u128 = m as u128 * factor as u128;
    proof {
        assert(pow2(116) == 0x10_0000_0000_0000_0000_0000_0000_0000) by {
            lemma2_to64();
            lemma2_to64_rest();
            lemma_pow2_adds(52, 64);
        }
        lemma_pow2_pos(k as nat);
    }
    if k > 116 {
        proof {
            lemma_pow2_strictly_increases(116, k as nat);
            lemma_fundamental_div_mod_converse(
                wide as int,
                pow2(k as nat) as int,
                0,
                wide as int,
            );
        }
        return 0;
    }
    let den: u128 = power(k);
    let q: u128 = wide / den;
    let r: u128 = wide % den;
    proof {
        lemma_fundamental_div_mod(wide as int, den as int);
        if k < 116 {
            lemma_pow2_strictly_increases(k as nat, 116);
        }
        assert(q <= wide) by (nonlinear_arith)
            requires
                wide == den * q + r,
                den >= 1,
                r >= 0,
        ;
    }
    if 2 * r > den || (2 * r == den && q % 2 == 1) {
        q + 1
    } else {
        q
    }
}

impl Double {
    /// The number in billionths, rounded to an integer without its sign; none where it
    /// is not finite or so large that it has nothing behind the point.
    pub(crate) fn to_billionths(self) -> (result: Option<u128>)
        ensures
            result matches Some(value) ==> self.finite() && value == self.scaled_integer(9),
            result is None ==> !self.finite() || units(self.size()) >= HIDDEN * pow2(
                FINEST as nat,
            ),
    {
        if !self.is_finite() {
            return None;
        }
        let (m, scale) = self.parts();
        if scale >= 1074 {
            proof {
                lemma_pow2_pos(1074);
                if scale > 1074 {
                    lemma_pow2_strictly_increases(1074, scale as nat);
                }
                let p = pow2(scale as nat);
                let q = pow2(1074);
                assert(m * p >= HIDDEN * q) by (nonlinear_arith)
                    requires
                        m >= HIDDEN,
                        p >= q,
                        q >= 0,
                ;
            }
            return None;
        }
        let factor: u64 = 1_000_000_000;
        let result: u128 = shifted_down(m, (1074 - scale) as u32, factor);
        proof {
            let k = (1074 - scale) as nat;
            let f = pow2(scale as nat);
            assert(pow(10, 9) == 1_000_000_000) by {
                reveal_with_fuel(pow, 10);
            }
            lemma_pow2_adds(k, scale as nat);
            lemma_pow2_pos(k);
            lemma_pow2_pos(scale as nat);
            lemma_half_even_scaled((m * factor) as nat, pow2(k), f);
            assert((m as nat * f) * factor as nat == (m * factor) as nat * f) by (nonlinear_arith);
        }
        Some(result)
    }

    /// The number without what is behind its point, as a 64-bit integer.
    pub fn truncate(self) -> (result: u64)
        ensures
            result == self.truncated(),
    {
        self.as_integer(false)
    }

    /// The nearest 64-bit integer, halves away from zero.
    pub fn round_to_integer(self) -> (result: u64)
        ensures
            result == self.nearest_integer(),
    {
        self.as_integer(true)
    }

    fn as_integer(self, nearest: bool) -> (result: u64)
        ensures
            result == if nearest {
                self.nearest_integer()
            } else {
                self.truncated()
            },
    {
        if self.is_nan() || self.is_negative() {
            return 0;
        }
        proof {
            lemma_powers();
            lemma2_to64();
            lemma2_to64_rest();
            lemma_pow2_pos(1074);
        }
        let ghost one = pow2(1074);
        if !self.is_finite() {
            proof {
                lemma_units_at(2046, HIDDEN as nat);
                lemma_pow2_adds(972, 1074);
                lemma_pow2_strictly_increases(64, 972);
                lemma_whole(HIDDEN as nat * pow2(972), one);
                assert(HIDDEN as nat * (pow2(972) * one) == HIDDEN as nat * pow2(972) * one)
                    by (nonlinear_arith);
            }
            return u64::MAX;
        }
        let (m, scale) = self.parts();
        if scale >= 1074 {
            let up: u32 = (scale - 1074) as u32;
            proof {
                lemma_pow2_adds(up as nat, 1074);
                let f = pow2(up as nat);
                assert(m as nat * (f * one) == m as nat * f * one) by (nonlinear_arith);
                lemma_whole(m as nat * f, one);
            }
            if up > 63 {
                proof {
                    lemma_pow2_strictly_increases(63, up as nat);
                    let f = pow2(up as nat);
                    assert(m * f > u64::MAX) by (nonlinear_arith)
                        requires
                            m >= 2,
                            f > 0x8000_0000_0000_0000,
                    ;
                }
                return u64::MAX;
            }
            let factor: u128 = power(up);
            proof {
                if up < 63 {
                    lemma_pow2_strictly_increases(up as nat, 63);
                }
                assert(m * factor <= 0x20_0000_0000_0000 * 0x8000_0000_0000_0000)
                    by (nonlinear_arith)
                    requires
                        m < 0x20_0000_0000_0000,
                        factor <= 0x8000_0000_0000_0000,
                ;
            }
            let whole: u128 = m as u128 * factor;
            return if whole > u64::MAX as u128 {
                u64::MAX
            } else {
                whole as u64
            };
        }
        let down: u32 = (1074 - scale) as u32;
        proof {
            lemma_pow2_adds(down as nat, scale as nat);
            lemma_pow2_pos(scale as nat);
            lemma_pow2_pos(down as nat);
            lemma_reduced(m as nat, pow2(down as nat), pow2(scale as nat));
        }
        if down > 54 {
            proof {
                lemma_pow2_strictly_increases(54, down as nat);
                let d = pow2(down as nat);
                lemma_fundamental_div_mod_converse(m as int, d as int, 0, m as int);
                lemma_fundamental_div_mod_converse(
                    2 * m + d,
                    2 * d as int,
                    0,
                    2 * m + d,
                );
            }
            return 0;
        }
        let d: u128 = power(down);
        proof {
            if down < 54 {
                lemma_pow2_strictly_increases(down as nat, 54);
            }
        }
        let whole: u128 = if nearest {
            (2 * m as u128 + d) / (2 * d)
        } else {
            m as u128 / d
        };
        proof {
            let top = if nearest {
                (2 * m + d) as int
            } else {
                m as int
            };
            let bottom = if nearest {
                (2 * d) as int
            } else {
                d as int
            };
            lemma_fundamental_div_mod(top, bottom);
            assert(whole <= top) by (nonlinear_arith)
                requires
                    top == bottom * whole + top % bottom,
                    top % bottom >= 0,
                    bottom >= 1,
                    whole >= 0,
            ;
        }
        whole as u64
    }
}

proof fn lemma_whole(value: nat, one: nat)
    requires
        one > 0,
    ensures
        (value * one) / one == value,
        half_up(value * one, one) == value,
{
    lemma_fundamental_div_mod_converse((value * one) as int, one as int, value as int, 0);
    assert(2 * (value * one) + one == value * (2 * one) + one) by (nonlinear_arith);
    lemma_fundamental_div_mod_converse(
        2 * (value * one) + one as int,
        2 * one as int,
        value as int,
        one as int,
    );
}

proof fn lemma_reduced(m: nat, d: nat, f: nat)
    requires
        d > 0,
        f > 0,
    ensures
        (m * f) / (d * f) == m / d,
        half_up(m * f, d * f) == half_up(m, d),
{
    lemma_quotient_reduced(m, d, f);
    lemma_quotient_reduced(2 * m + d, 2 * d, f);
    assert((2 * m + d) * f == 2 * (m * f) + d * f) by (nonlinear_arith);
    assert(2 * d * f == 2 * (d * f)) by (nonlinear_arith);
}

proof fn lemma_quotient_reduced(m: nat, d: nat, f: nat)
    requires
        d > 0,
        f > 0,
    ensures
        (m * f) / (d * f) == m / d,
{
    let q = m / d;
    let r = m % d;
    lemma_fundamental_div_mod(m as int, d as int);
    assert(m * f == q * (d * f) + r * f) by (nonlinear_arith)
        requires
            m == d * q + r,
    ;
    assert(0 <= r * f < d * f) by (nonlinear_arith)
        requires
            0 <= r < d,
            f > 0,
    ;
    lemma_fundamental_div_mod_converse((m * f) as int, (d * f) as int, q as int, (r * f) as int);
}

// ---------------------------------------------------------------------------
// Text
// ---------------------------------------------------------------------------

proof fn lemma_digits_are_decimal(digits: Seq<u32>)
    requires
        proper(digits, 10),
        digits.len() > 0,
        digits.last() > 0 || digits.len() == 1,
    ensures
        decimal(number(digits, 10)) == Seq::new(
            digits.len(),
            |i: int| digit_char(digits[digits.len() - 1 - i] as nat),
        ),
        digits.last() > 0 ==> number(digits, 10) > 0,
    decreases digits.len(),
{
    let all = Seq::new(
        digits.len(),
        |i: int| digit_char(digits[digits.len() - 1 - i] as nat),
    );
    let rest = digits.skip(1);
    let value = number(digits, 10);
    assert(digits[0] < 10);
    if digits.len() == 1 {
        assert(number(rest, 10) == 0);
        assert(value == digits[0]);
        assert(all =~= decimal(value));
    } else {
        assert(rest.last() == digits.last());
        lemma_digits_are_decimal(rest);
        assert(value / 10 == number(rest, 10));
        assert(value % 10 == digits[0]);
        assert(all =~= decimal(value / 10).push(digit_char(value % 10)));
    }
}

/// A row of digits with zeros at the top is the same number with as many digits.
proof fn lemma_digits_are_padded(digits: Seq<u32>)
    requires
        proper(digits, 10),
        digits.len() > 0,
    ensures
        padded_decimal(number(digits, 10), digits.len()) == Seq::new(
            digits.len(),
            |i: int| digit_char(digits[digits.len() - 1 - i] as nat),
        ),
    decreases digits.len(),
{
    if digits.last() > 0 || digits.len() == 1 {
        lemma_digits_are_decimal(digits);
    } else {
        let lower = digits.drop_last();
        lemma_digits_are_padded(lower);
        assert(digits =~= lower.push(0));
        lemma_push(lower, 0, 10);
        assert(0 * pow(10, lower.len()) == 0);
        assert(padded_decimal(number(digits, 10), digits.len()) =~= seq!['0'] + padded_decimal(
            number(lower, 10),
            lower.len(),
        ));
        assert(padded_decimal(number(digits, 10), digits.len()) =~= Seq::new(
            digits.len(),
            |i: int| digit_char(digits[digits.len() - 1 - i] as nat),
        ));
    }
}

/// A number is what its lowest digits count, and what those above them do.
proof fn lemma_number_split(digits: Seq<u32>, c: int)
    requires
        0 <= c <= digits.len(),
    ensures
        number(digits, 10) == number(digits.take(c), 10) + pow(10, c as nat) * number(
            digits.skip(c),
            10,
        ),
    decreases digits.len() - c,
{
    if c == digits.len() {
        assert(digits.take(c) =~= digits);
        assert(number(digits.skip(c), 10) == 0);
        assert(pow(10, c as nat) * 0 == 0) by (nonlinear_arith);
    } else {
        let low = digits.take(c);
        let one = digits[c];
        lemma_number_split(digits, c + 1);
        assert(digits.take(c + 1) =~= low.push(one));
        assert(digits.skip(c).skip(1) =~= digits.skip(c + 1));
        lemma_push(low, one, 10);
        lemma_pow_adds(10, 1, c as nat);
        lemma_pow1(10);
        let p = pow(10, c as nat);
        let rest = number(digits.skip(c + 1), 10);
        assert(one * p + (10 * p) * rest == p * (one + 10 * rest)) by (nonlinear_arith);
    }
}

/// Which way a number is rounded where its lowest digits are cut off.
proof fn lemma_cut(digits: Seq<u32>, c: int, zero_below: bool)
    requires
        proper(digits, 10),
        0 < c <= digits.len(),
        zero_below == (number(digits.take(c - 1), 10) == 0),
    ensures
        ({
            let rest = digits.skip(c);
            let top = digits[c - 1];
            let odd = rest.len() > 0 && rest[0] % 2 == 1;
            let up = top > 5 || (top == 5 && (!zero_below || odd));
            half_even(number(digits, 10), pow(10, c as nat) as nat) == number(rest, 10) + if up {
                1nat
            } else {
                0nat
            }
        }),
{
    let n = number(digits, 10);
    let q = number(digits.skip(c), 10);
    let low = number(digits.take(c - 1), 10);
    let r = number(digits.take(c), 10);
    let top = digits[c - 1];
    let p = pow(10, (c - 1) as nat);
    let den = pow(10, c as nat);
    lemma_number_split(digits, c);
    assert(digits.take(c) =~= digits.take(c - 1).push(top));
    lemma_push(digits.take(c - 1), top, 10);
    lemma_bound(digits.take(c - 1), 10);
    lemma_bound(digits.take(c), 10);
    lemma_pow_adds(10, 1, (c - 1) as nat);
    lemma_pow1(10);
    assert(den == 10 * p);
    assert(r == low + top * p);
    assert(den * q == q * den) by (nonlinear_arith);
    lemma_fundamental_div_mod_converse(n as int, den, q as int, r as int);
    assert(top < 10);
    assert(top >= 6 ==> top * p >= 6 * p) by (nonlinear_arith)
        requires
            p > 0,
    ;
    assert(top <= 4 ==> top * p <= 4 * p) by (nonlinear_arith)
        requires
            p > 0,
    ;
    assert(top == 5 ==> top * p == 5 * p) by (nonlinear_arith);
    if digits.skip(c).len() > 0 {
        assert(q == digits.skip(c)[0] + 10 * number(digits.skip(c).skip(1), 10));
    } else {
        assert(q == 0);
    }
}

/// A number without its lowest digits, rounded to the nearest, halves to the even one.
fn without_lowest(digits: &Vec<u32>, c: usize) -> (result: Vec<u32>)
    requires
        proper(digits@, 10),
        c > 0,
    ensures
        proper(result@, 10),
        number(result@, 10) == half_even(number(digits@, 10), pow(10, c as nat) as nat),
{
    let mut rest: Vec<u32> = Vec::new();
    if c > digits.len() {
        proof {
            let n = number(digits@, 10);
            lemma_bound(digits@, 10);
            lemma_pow_adds(10, 1, (c - 1) as nat);
            lemma_pow1(10);
            if digits@.len() < c - 1 {
                lemma_pow_increases(10, digits@.len(), (c - 1) as nat);
            }
            lemma_fundamental_div_mod_converse(n as int, pow(10, c as nat), 0, n as int);
        }
        return rest;
    }
    let mut zero_below: bool = true;
    let mut i: usize = 0;
    assert(number(digits@.take(0), 10) == 0);
    while i < c - 1
        invariant
            i <= c - 1,
            c <= digits@.len(),
            zero_below == (number(digits@.take(i as int), 10) == 0),
        decreases c - i,
    {
        proof {
            assert(digits@.take(i + 1) =~= digits@.take(i as int).push(digits@[i as int]));
            lemma_push(digits@.take(i as int), digits@[i as int], 10);
            lemma_pow_positive(10, i as nat);
            let d = digits@[i as int];
            let p = pow(10, i as nat);
            assert(d > 0 ==> d * p > 0) by (nonlinear_arith)
                requires
                    p > 0,
            ;
            assert(d == 0 ==> d * p == 0) by (nonlinear_arith);
        }
        if digits[i] != 0 {
            zero_below = false;
        }
        i += 1;
    }
    let mut j: usize = c;
    while j < digits.len()
        invariant
            c <= j <= digits@.len(),
            rest@ == digits@.subrange(c as int, j as int),
        decreases digits@.len() - j,
    {
        rest.push(digits[j]);
        j += 1;
        assert(rest@ =~= digits@.subrange(c as int, j as int));
    }
    assert(rest@ =~= digits@.skip(c as int));
    proof {
        lemma_cut(digits@, c as int, zero_below);
    }
    let top: u32 = digits[c - 1];
    let odd: bool = rest.len() > 0 && rest[0] % 2 == 1;
    if top > 5 || (top == 5 && (!zero_below || odd)) {
        multiply_add(&mut rest, 10, 1, 1);
    }
    rest
}

fn digit_character(digit: u32) -> (result: char)
    requires
        digit < 10,
    ensures
        result == digit_char(digit as nat),
{
    (48 + digit as u8) as char
}

/// Puts the digits of a number, the lowest first, behind a string, with so many of
/// them behind a point.
fn push_digits(out: &mut String, digits: &Vec<u32>, places: usize)
    requires
        proper(digits@, 10),
    ensures
        final(out)@ == old(out)@ + with_point(number(digits@, 10), places as nat),
{
    push_whole(out, digits, places);
    let ghost whole = out@;
    if places == 0 {
        proof {
            lemma_pow0(10);
            let value = number(digits@, 10);
            assert(value / 1 == value);
        }
        return;
    }
    out.push('.');
    let ghost low = padded(digits@, places as nat);
    let mut i: usize = places;
    assert(out@ =~= whole.push('.') + Seq::new(
        0,
        |j: int| digit_char(low[places - 1 - j] as nat),
    ));
    while i > 0
        invariant
            i <= places,
            proper(digits@, 10),
            low == padded(digits@, places as nat),
            out@ == whole.push('.') + Seq::new(
                (places - i) as nat,
                |j: int| digit_char(low[places - 1 - j] as nat),
            ),
        decreases i,
    {
        i -= 1;
        let digit: u32 = if i < digits.len() {
            digits[i]
        } else {
            0
        };
        assert(digit < 10);
        out.push(digit_character(digit));
        assert(out@ =~= whole.push('.') + Seq::new(
            (places - i) as nat,
            |j: int| digit_char(low[places - 1 - j] as nat),
        ));
    }
    proof {
        lemma_lowest(digits@, places as nat);
        lemma_digits_are_padded(low);
    }
    assert(out@ =~= old(out)@ + with_point(number(digits@, 10), places as nat));
}

/// The digits above some others.
spec fn highest(digits: Seq<u32>, n: nat) -> Seq<u32> {
    if n < digits.len() {
        digits.skip(n as int)
    } else {
        Seq::empty()
    }
}

proof fn lemma_lowest(digits: Seq<u32>, n: nat)
    requires
        proper(digits, 10),
    ensures
        proper(padded(digits, n), 10),
        number(padded(digits, n), 10) == number(digits, 10) % pow(10, n) as nat,
        number(highest(digits, n), 10) == number(digits, 10) / pow(10, n) as nat,
{
    let all = number(digits, 10);
    let low = padded(digits, n);
    if n < digits.len() {
        assert(low =~= digits.take(n as int));
        lemma_number_split(digits, n as int);
    } else {
        lemma_padded(digits, n, 10);
        assert(low =~= padded(digits, n));
        assert(pow(10, n) * 0 == 0) by (nonlinear_arith);
    }
    lemma_bound(low, 10);
    let high = number(highest(digits, n), 10);
    let p = pow(10, n);
    assert(p * high == high * p) by (nonlinear_arith);
    lemma_fundamental_div_mod_converse(all as int, p, high as int, number(low, 10) as int);
}

/// Puts what stands before the point of a number behind a string.
fn push_whole(out: &mut String, digits: &Vec<u32>, places: usize)
    requires
        proper(digits@, 10),
    ensures
        final(out)@ == old(out)@ + decimal(number(digits@, 10) / pow(10, places as nat) as nat),
{
    let ghost before = out@;
    let ghost high = highest(digits@, places as nat);
    let mut top: usize = digits.len();
    while top > places && digits[top - 1] == 0
        invariant
            top <= digits@.len(),
            places <= top || top == digits@.len(),
            proper(digits@, 10),
            high == highest(digits@, places as nat),
            places < digits@.len() ==> number(high, 10) == number(
                digits@.subrange(places as int, top as int),
                10,
            ),
        decreases top,
    {
        proof {
            let shorter = digits@.subrange(places as int, top - 1);
            assert(digits@.subrange(places as int, top as int) =~= shorter.push(0));
            lemma_push(shorter, 0, 10);
            assert(0 * pow(10, shorter.len()) == 0);
        }
        top -= 1;
    }
    proof {
        lemma_lowest(digits@, places as nat);
    }
    if top <= places {
        out.push('0');
        proof {
            if places < digits@.len() {
                assert(digits@.subrange(places as int, top as int) =~= Seq::<u32>::empty());
            }
            assert(number(high, 10) == 0);
            assert(digit_char(0) == '0');
        }
        assert(out@ =~= before + decimal(0));
        return;
    }
    let ghost shown = digits@.subrange(places as int, top as int);
    proof {
        lemma_digits_are_decimal(shown);
    }
    let mut i: usize = top;
    assert(out@ =~= before + Seq::new(
        0,
        |j: int| digit_char(shown[shown.len() - 1 - j] as nat),
    ));
    while i > places
        invariant
            places <= i <= top <= digits@.len(),
            proper(digits@, 10),
            shown == digits@.subrange(places as int, top as int),
            out@ == before + Seq::new(
                (top - i) as nat,
                |j: int| digit_char(shown[shown.len() - 1 - j] as nat),
            ),
        decreases i,
    {
        i -= 1;
        assert(shown[i - places] == digits@[i as int]);
        assert(digits@[i as int] < 10);
        out.push(digit_character(digits[i]));
        assert(out@ =~= before + Seq::new(
            (top - i) as nat,
            |j: int| digit_char(shown[shown.len() - 1 - j] as nat),
        ));
    }
    assert(out@ =~= before + decimal(number(shown, 10)));
}

/// The digits of a finite number times a power of ten, rounded to an integer without
/// its sign, the lowest first.
fn scaled_digits(value: Double, places: u32) -> (result: Vec<u32>)
    requires
        value.finite(),
    ensures
        proper(result@, 10),
        number(result@, 10) == value.scaled_integer(places as nat),
{
    let (m, scale) = value.parts();
    let ghost one = pow2(1074);
    let ghost f = pow(10, places as nat) as nat;
    proof {
        lemma_pow2_pos(1074);
        lemma_pow_positive(10, places as nat);
    }
    if m == 0 {
        let nothing: Vec<u32> = Vec::new();
        proof {
            assert(0 * pow2(scale as nat) == 0) by (nonlinear_arith);
            assert(0 * f == 0) by (nonlinear_arith);
            lemma_half_even_whole(0, one);
            assert(0 * one == 0) by (nonlinear_arith);
        }
        return nothing;
    }
    let mut digits: Vec<u32> = digits_of(m, 10);
    if scale >= 1074 {
        let up: u32 = (scale - 1074) as u32;
        multiply_power(&mut digits, 10, 2, up as u128);
        multiply_power(&mut digits, 10, 10, places as u128);
        proof {
            let w = m as nat * pow2(up as nat);
            lemma_pow2(up as nat);
            lemma_pow2_adds(up as nat, 1074);
            assert(m as nat * (pow2(up as nat) * one) * f == w * f * one) by (nonlinear_arith)
                requires
                    w == m as nat * pow2(up as nat),
            ;
            lemma_half_even_whole(w * f, one);
        }
        return digits;
    }
    let k: u32 = (1074 - scale) as u32;
    multiply_power(&mut digits, 10, 5, k as u128);
    proof {
        lemma_pow_positive(5, k as nat);
        lemma_decimal_digits(m as nat, k as nat, scale as nat, places as nat);
    }
    if places >= k {
        proof {
            lemma_pow_positive(10, (places - k) as nat);
        }
        multiply_power(&mut digits, 10, 10, (places - k) as u128);
        digits
    } else {
        without_lowest(&digits, (k - places) as usize)
    }
}

/// Parts of a power of two are parts of a power of ten.
proof fn lemma_decimal_digits(m: nat, k: nat, scale: nat, places: nat)
    requires
        k + scale == 1074,
    ensures
        ({
            let exact = m * pow(5, k) as nat;
            half_even(m * pow2(scale) * pow(10, places) as nat, pow2(1074)) == if places >= k {
                exact * pow(10, (places - k) as nat) as nat
            } else {
                half_even(exact, pow(10, (k - places) as nat) as nat)
            }
        }),
{
    let two = pow2(k);
    let five = pow(5, k) as nat;
    let ten = pow(10, places) as nat;
    let s = pow2(scale);
    let exact = m * five;
    lemma_pow2_pos(k);
    lemma_pow2_pos(scale);
    lemma_pow_positive(5, k);
    lemma_pow_positive(10, places);
    lemma_pow2_adds(k, scale);
    lemma_half_even_scaled(m * ten, two, s);
    assert(m * s * ten == m * ten * s) by (nonlinear_arith);
    // What is halved k times is tenths of what is taken five times as often.
    lemma_half_even_scaled(m * ten, two, five);
    assert(m * ten * five == exact * ten) by (nonlinear_arith)
        requires
            exact == m * five,
    ;
    lemma_pow2(k);
    lemma_pow_distributes(2, 5, k);
    assert(two * five == pow(10, k));
    if places >= k {
        let more = pow(10, (places - k) as nat) as nat;
        lemma_pow_positive(10, (places - k) as nat);
        lemma_pow_positive(10, k);
        lemma_pow_adds(10, (places - k) as nat, k);
        let whole = pow(10, k) as nat;
        assert(exact * ten == (exact * more) * whole) by (nonlinear_arith)
            requires
                ten == more * whole,
        ;
        lemma_half_even_whole(exact * more, whole);
    } else {
        let less = pow(10, (k - places) as nat) as nat;
        lemma_pow_positive(10, (k - places) as nat);
        lemma_pow_adds(10, (k - places) as nat, places);
        lemma_half_even_scaled(exact, less, ten);
    }
}

/// Puts a number in decimal digits, with so many places behind the point,
/// behind a string.
pub fn push_fixed(out: &mut String, value: Double, places: u32)
    ensures
        final(out)@ == old(out)@ + value.fixed(places as nat),
{
    let ghost before = out@;
    if value.is_nan() {
        out.append("NaN");
        return;
    }
    if value.is_negative() {
        out.push('-');
    }
    if !value.is_finite() {
        out.append("inf");
        assert(out@ =~= before + value.fixed(places as nat));
        return;
    }
    let digits: Vec<u32> = scaled_digits(value, places);
    push_digits(out, &digits, places as usize);
    assert(out@ =~= before + value.fixed(places as nat));
}

/// A number with so many places, and what stands behind it.
pub fn fixed_text(value: Double, places: u32, suffix: &str) -> (result: String)
    ensures
        result@ == value.fixed(places as nat) + suffix@,
{
    let mut text: String = String::new();
    push_fixed(&mut text, value, places);
    assert(text@ =~= value.fixed(places as nat));
    text.append(suffix);
    text
}

} // verus!
