//! The room that a factor leaves above a number, whatever rounding takes of it.

use crate::arithmetic::lemma_nearest_at_most;
use crate::double::{
    lemma_parts, lemma_units_at, lemma_units_increase, units, Double, FINEST, HIDDEN, INFINITE,
};
use crate::rounding::{
    lemma_exact, lemma_nearest, lemma_nearest_grows, lemma_powers, lemma_rounded, nearest,
};
use vstd::arithmetic::power2::{lemma2_to64, lemma2_to64_rest, lemma_pow2_adds, lemma_pow2_pos, pow2};
use vstd::prelude::*;

verus! {

/// What counts no less than a number does not round to a smaller one.
pub(crate) proof fn lemma_nearest_at_least(num: nat, den: nat, size: nat)
    requires
        size <= INFINITE,
        den > 0,
        units(size) * den <= num,
    ensures
        size <= nearest(num, den),
        units(size) <= units(nearest(num, den)),
{
    let exact = units(size) * den;
    assert(exact * den <= num * den) by (nonlinear_arith)
        requires
            exact <= num,
    ;
    lemma_exact(size, den);
    lemma_nearest(exact, den, size);
    lemma_nearest_grows(exact, den, num, den);
    if size < nearest(num, den) {
        lemma_units_increase(size, nearest(num, den));
    }
}

/// What a number counts whose leading digits are those of a small integer.
proof fn lemma_counts(c: nat, shift: nat, scale: nat)
    requires
        HIDDEN <= c * pow2(shift) < 2 * HIDDEN,
    ensures
        units((scale * HIDDEN as nat + c * pow2(shift)) as nat) == c * pow2(shift + scale),
{
    lemma_units_at(scale, c * pow2(shift));
    lemma_pow2_adds(shift, scale);
    let a = pow2(shift);
    let b = pow2(scale);
    assert((c * a) * b == c * (a * b)) by (nonlinear_arith);
}

/// A number a sixty-fourth or so above another.
proof fn lemma_number_above(size: nat) -> (above: nat)
    requires
        HIDDEN <= size < INFINITE,
    ensures
        128 * units(above) >= 129 * units(size),
        32 * units(above) <= 33 * units(size),
{
    let (scale, mantissa) = lemma_parts(size);
    let p = pow2(scale);
    let extra: nat = 0x8000_0000_0000;
    lemma_units_at(scale, mantissa);
    lemma_pow2_pos(scale);
    if mantissa + extra <= 2 * HIDDEN {
        let more = mantissa + extra;
        lemma_units_at(scale, more);
        assert(128 * (more * p) >= 129 * (mantissa * p)) by (nonlinear_arith)
            requires
                128 * more >= 129 * mantissa,
        ;
        assert(32 * (more * p) <= 33 * (mantissa * p)) by (nonlinear_arith)
            requires
                32 * more <= 33 * mantissa,
        ;
        scale * HIDDEN as nat + more
    } else {
        let half = (mantissa + extra) / 2;
        lemma_units_at(scale + 1, half);
        lemma_pow2_adds(1, scale);
        lemma_powers();
        assert(half * (2 * p) == (2 * half) * p) by (nonlinear_arith);
        assert(128 * ((2 * half) * p) >= 129 * (mantissa * p)) by (nonlinear_arith)
            requires
                128 * (2 * half) >= 129 * mantissa,
        ;
        assert(32 * ((2 * half) * p) <= 33 * (mantissa * p)) by (nonlinear_arith)
            requires
                32 * (2 * half) <= 33 * mantissa,
        ;
        (scale + 1) * HIDDEN as nat + half
    }
}

/// Whether a factor is 33 / 32 or more.
pub open spec fn leaves_room(factor: Double) -> bool {
    factor.finite() && !factor.negative() && 32 * factor.value() >= 33 * pow2(FINEST as nat)
}

/// A product with such a factor is larger by a 128th at least.
pub(crate) proof fn lemma_product_leaves_room(value: Double, factor: Double)
    requires
        HIDDEN <= value.size() < INFINITE,
        !value.negative(),
        leaves_room(factor),
        value.product(factor).finite(),
    ensures
        128 * value.product(factor).value() >= 129 * value.value(),
        !value.product(factor).negative(),
{
    let p = pow2(FINEST as nat);
    let v = units(value.size());
    let f = units(factor.size());
    let above = lemma_number_above(value.size());
    let y = units(above);
    lemma_pow2_pos(FINEST as nat);
    assert(y * p <= v * f) by (nonlinear_arith)
        requires
            32 * y <= 33 * v,
            32 * f >= 33 * p,
    ;
    let size = nearest(v * f, p);
    if above > INFINITE {
        lemma_units_increase(INFINITE as nat, above);
        let top = units(INFINITE as nat);
        assert(top * p <= y * p) by (nonlinear_arith)
            requires
                top <= y,
        ;
        lemma_nearest_at_least(v * f, p, INFINITE as nat);
        lemma_rounded(v * f, p);
        assert(size == INFINITE);
        assert(value.product(factor).size() == INFINITE);
    } else {
        lemma_nearest_at_least(v * f, p, above);
        lemma_rounded(v * f, p);
        assert(value.product(factor).size() == size);
    }
}

/// The steps of an axis: one, two, five and ten.
pub open spec fn is_step(step: nat) -> bool {
    step == 1 || step == 2 || step == 5 || step == 10
}

/// An integer is a number itself where its digits, moved up, are as many as a number
/// has.
pub(crate) proof fn lemma_integer_is_exact(n: nat, c: nat, up: nat, shift: nat, scale: nat)
    requires
        n == c * pow2(up),
        shift + scale == FINEST + up,
        HIDDEN <= c * pow2(shift) < 2 * HIDDEN,
        scale < 2046,
    ensures
        Double::integer(n).finite(),
        !Double::integer(n).negative(),
        Double::integer(n).value() == n * pow2(FINEST as nat),
        Double::integer(n).size() == scale * HIDDEN + c * pow2(shift),
{
    let p = pow2(FINEST as nat);
    let more = pow2(up);
    let size = scale * HIDDEN as nat + c * pow2(shift);
    lemma_counts(c, shift, scale);
    lemma_pow2_adds(FINEST as nat, up);
    assert(c * (p * more) == (c * more) * p) by (nonlinear_arith);
    lemma_exact(size, 1);
    assert(units(size) * 1 == n * p);
    lemma_nearest(n * p, 1, size);
}

/// The steps are numbers themselves.
pub(crate) proof fn lemma_step(step: nat)
    requires
        is_step(step),
    ensures
        Double::integer(step).finite(),
        !Double::integer(step).negative(),
        Double::integer(step).value() == step * pow2(FINEST as nat),
        step == 1 ==> Double::integer(step).size() == 1023 * HIDDEN,
{
    lemma_powers();
    lemma2_to64_rest();
    if step == 1 {
        lemma_integer_is_exact(1, 1, 0, 52, 1022);
    } else if step == 2 {
        lemma_integer_is_exact(2, 1, 1, 52, 1023);
    } else if step == 5 {
        lemma_integer_is_exact(5, 5, 0, 50, 1024);
    } else {
        lemma_integer_is_exact(10, 5, 1, 50, 1025);
    }
}

/// A quotient of integers from 33 / 32 to 2 is rounded to a factor that leaves room.
proof fn lemma_ratio_leaves_room(a: nat, b: nat)
    requires
        Double::integer(a).finite(),
        Double::integer(b).finite(),
        !Double::integer(a).negative(),
        !Double::integer(b).negative(),
        Double::integer(a).value() == a * pow2(FINEST as nat),
        Double::integer(b).value() == b * pow2(FINEST as nat),
        0 < 33 * b <= 32 * a,
        a <= 2 * b,
    ensures
        leaves_room(Double::integer(a).quotient(Double::integer(b))),
{
    let p = pow2(FINEST as nat);
    let top = units(Double::integer(a).size());
    let bottom = units(Double::integer(b).size());
    let least = 1022 * HIDDEN as nat + 33 * pow2(47);
    lemma_powers();
    lemma2_to64_rest();
    lemma_counts(33, 47, 1022);
    lemma_pow2_adds(5, 1069);
    assert(pow2(5) == 32) by {
        lemma2_to64();
    }
    lemma_step(2);
    let most = Double::integer(2).size();
    let low = units(least);
    assert(32 * low == 33 * p);
    lemma_pow2_pos(FINEST as nat);
    assert(bottom > 0) by (nonlinear_arith)
        requires
            bottom == b * p,
            b > 0,
            p > 0,
    ;
    assert(Double::integer(b).size() > 0) by {
        assert(units(0) == 0);
    }
    assert(low * bottom <= top * p) by (nonlinear_arith)
        requires
            32 * low == 33 * p,
            33 * b <= 32 * a,
            top == a * p,
            bottom == b * p,
    ;
    lemma_nearest_at_least(top * p, bottom, least);
    let high = units(most);
    assert(top * p <= high * bottom) by (nonlinear_arith)
        requires
            high == 2 * p,
            a <= 2 * b,
            top == a * p,
            bottom == b * p,
    ;
    lemma_nearest_at_most(top * p, bottom, most);
}

/// The factors by which an axis is made longer leave room.
pub(crate) proof fn lemma_factors()
    ensures
        leaves_room(Double::integer(11).quotient(Double::integer(10))),
        leaves_room(Double::integer(105).quotient(Double::integer(100))),
{
    lemma_powers();
    lemma2_to64();
    lemma2_to64_rest();
    lemma_integer_is_exact(11, 11, 0, 49, 1025);
    lemma_step(10);
    lemma_ratio_leaves_room(11, 10);
    lemma_integer_is_exact(105, 105, 0, 46, 1028);
    lemma_integer_is_exact(100, 25, 2, 48, 1028);
    lemma_ratio_leaves_room(105, 100);
}

/// Where a quotient is rounded to no more than a step, the dividend is no more than
/// a 128th above so many divisors.
pub(crate) proof fn lemma_quotient_within_step(dividend: Double, divisor: Double, step: nat)
    requires
        dividend.finite(),
        !dividend.negative(),
        divisor.finite(),
        !divisor.negative(),
        divisor.size() > 0,
        step == 1 || step == 2 || step == 5,
        dividend.quotient(divisor).at_most(Double::integer(step)),
    ensures
        128 * dividend.value() <= 129 * (step * divisor.value()),
{
    let p = pow2(FINEST as nat);
    let (c, shift, scale): (nat, nat, nat) = if step == 1 {
        (129, 45, 1022)
    } else if step == 2 {
        (129, 45, 1023)
    } else {
        (645, 43, 1024)
    };
    let above = scale * HIDDEN as nat + c * pow2(shift);
    lemma_powers();
    lemma2_to64_rest();
    lemma_counts(c, shift, scale);
    lemma_pow2_adds(7, 1067);
    lemma_pow2_adds(1, 1067);
    assert(pow2(7) == 128) by {
        lemma2_to64();
    }
    let q = pow2(1067);
    assert(p == 128 * q);
    assert(units(above) == 129 * step * q) by (nonlinear_arith)
        requires
            step == 1 && units(above) == 129 * q || step == 2 && units(above) == 129 * (2 * q)
                || step == 5 && units(above) == 645 * q,
    ;
    assert(128 * (129 * step * q) == 129 * step * (128 * q)) by (nonlinear_arith);
    lemma_step(step);
    let w = units(dividend.size());
    let d = units(divisor.size());
    lemma_units_increase(0, divisor.size());
    if 128 * w > 129 * (step * d) {
        let a = units(above);
        assert(a * d <= w * p) by (nonlinear_arith)
            requires
                128 * a == 129 * step * p,
                128 * w > 129 * (step * d),
        ;
        lemma_nearest_at_least(w * p, d, above);
        lemma_rounded(w * p, d);
        let quotient = dividend.quotient(divisor);
        assert(quotient.size() == nearest(w * p, d));
        assert(above > Double::integer(step).size()) by {
            if above < Double::integer(step).size() {
                lemma_units_increase(above, Double::integer(step).size());
            }
            lemma_pow2_pos(FINEST as nat);
            assert(128 * (step * p) < 129 * step * p) by (nonlinear_arith)
                requires
                    step > 0,
                    p > 0,
            ;
        }
    }
}

/// So many times a number that counts no less is rounded to no less.
pub(crate) proof fn lemma_multiple_covers(value: Double, step: nat, number: Double)
    requires
        value.finite(),
        !value.negative(),
        number.finite(),
        !number.negative(),
        is_step(step),
        value.value() <= step * number.value(),
    ensures
        value.at_most(Double::integer(step).product(number)),
{
    let p = pow2(FINEST as nat);
    let v = units(value.size());
    let n = units(number.size());
    lemma_step(step);
    lemma_pow2_pos(FINEST as nat);
    let s = units(Double::integer(step).size());
    assert(v * p <= s * n) by (nonlinear_arith)
        requires
            v <= step * n,
            s == step * p,
    ;
    lemma_nearest_at_least(s * n, p, value.size());
    lemma_rounded(s * n, p);
}

} // verus!
