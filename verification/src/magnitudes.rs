//! How large the results of arithmetic are, by powers of two.

use crate::arithmetic::{
    lemma_integers, lemma_nearest_at_most, lemma_number_rounds_to_itself, lemma_power_is_a_number,
};
use crate::double::{
    lemma_order_is_numeric, lemma_parts, lemma_units_at, lemma_units_increase, lemma_units_step,
    units, Double, FINEST, HIDDEN, INFINITE,
};
use crate::margins::{lemma_integer_is_exact, lemma_nearest_at_least};
use crate::rounding::{
    lemma_exact, lemma_nearest, lemma_nearest_grows, lemma_powers, lemma_rounded, nearest,
    rounds_to,
};
use vstd::arithmetic::power2::{
    lemma2_to64, lemma2_to64_rest, lemma_pow2_adds, lemma_pow2_pos, lemma_pow2_strictly_increases,
    lemma_pow2_unfold, pow2,
};
use vstd::prelude::*;

verus! {

/// Whether a number is finite and not negative.
pub open spec fn is_amount(a: Double) -> bool {
    a.finite() && !a.negative()
}

/// A power of two that counts less than infinity is a finite number.
proof fn lemma_power_is_finite(k: nat) -> (size: nat)
    requires
        k < 2098,
    ensures
        size < INFINITE,
        units(size) == pow2(k),
{
    let size = lemma_power_is_a_number(k);
    lemma_powers();
    lemma_units_at(2046, HIDDEN as nat);
    lemma_pow2_adds(52, 2046);
    lemma_pow2_strictly_increases(k, 2098);
    size
}

pub proof fn lemma_rounded_amount(num: nat, den: nat, k: nat)
    requires
        den > 0,
        num <= pow2(k) * den,
        k < 2098,
    ensures
        is_amount(Double::rounded(false, num, den)),
        Double::rounded(false, num, den).value() <= pow2(k),
        Double::rounded(false, num, den).value() == units(nearest(num, den)),
{
    let size = lemma_power_is_finite(k);
    lemma_nearest_at_most(num, den, size);
}

/// A quotient is no more than the power of two that its parts make.
pub proof fn lemma_quotient_at_most(a: Double, b: Double, up: nat, low: nat, k: nat)
    requires
        is_amount(a),
        is_amount(b),
        a.value() <= pow2(up),
        pow2(low) <= b.value(),
        k + low == up + FINEST,
        k < 2098,
    ensures
        is_amount(a.quotient(b)),
        a.quotient(b).value() <= pow2(k),
{
    let p = pow2(FINEST as nat);
    let x = units(a.size());
    let y = units(b.size());
    lemma_pow2_pos(low);
    lemma_pow2_adds(up, FINEST as nat);
    lemma_pow2_adds(k, low);
    assert(b.size() > 0) by {
        assert(units(0) == 0);
    }
    let high = pow2(up);
    let d = pow2(low);
    let q = pow2(k);
    assert(x * p <= q * y) by (nonlinear_arith)
        requires
            x <= high,
            d <= y,
            q * d == high * p,
            q >= 0,
            p >= 0,
    ;
    lemma_rounded_amount(x * p, y, k);
}

/// A quotient is no less than the power of two that its parts make.
pub proof fn lemma_quotient_at_least(a: Double, b: Double, low: nat, up: nat, k: nat)
    requires
        is_amount(a),
        is_amount(b),
        pow2(low) <= a.value(),
        0 < b.value() <= pow2(up),
        k + up == low + FINEST,
        k < 2098,
        is_amount(a.quotient(b)),
    ensures
        pow2(k) <= a.quotient(b).value(),
{
    let p = pow2(FINEST as nat);
    let x = units(a.size());
    let y = units(b.size());
    assert(b.size() > 0) by {
        assert(units(0) == 0);
    }
    lemma_pow2_adds(low, FINEST as nat);
    lemma_pow2_adds(k, up);
    let least = pow2(low);
    let most = pow2(up);
    let q = pow2(k);
    assert(q * y <= x * p) by (nonlinear_arith)
        requires
            least <= x,
            y <= most,
            q * most == least * p,
            q >= 0,
            p >= 0,
    ;
    let size = lemma_power_is_finite(k);
    lemma_nearest_at_least(x * p, y, size);
    lemma_rounded(x * p, y);
}

/// A product is no more than the power of two that its parts make.
pub proof fn lemma_product_at_most(a: Double, b: Double, i: nat, j: nat, k: nat)
    requires
        is_amount(a),
        is_amount(b),
        a.value() <= pow2(i),
        b.value() <= pow2(j),
        k + FINEST == i + j,
        k < 2098,
    ensures
        is_amount(a.product(b)),
        a.product(b).value() <= pow2(k),
{
    let p = pow2(FINEST as nat);
    let x = units(a.size());
    let y = units(b.size());
    lemma_pow2_pos(FINEST as nat);
    lemma_pow2_adds(k, FINEST as nat);
    lemma_pow2_adds(i, j);
    let s = pow2(i);
    let t = pow2(j);
    let q = pow2(k);
    assert(x * y <= q * p) by (nonlinear_arith)
        requires
            x <= s,
            y <= t,
            q * p == s * t,
            x >= 0,
            y >= 0,
    ;
    lemma_rounded_amount(x * y, p, k);
}

/// An integer lies between the same powers of two as its number.
pub proof fn lemma_integer_between(n: nat, low: nat, up: nat)
    requires
        pow2(low) <= n <= pow2(up) || n == 0,
        n < 0x8000_0000_0000_0000_0000_0000_0000_0000,
        low <= 1000,
        up <= 1000,
    ensures
        is_amount(Double::integer(n)),
        Double::integer(n).value() <= pow2(up + FINEST as nat),
        n > 0 ==> pow2(low + FINEST as nat) <= Double::integer(n).value(),
{
    let p = pow2(FINEST as nat);
    lemma_integers(n, n);
    lemma_pow2_adds(up, FINEST as nat);
    lemma_pow2_adds(low, FINEST as nat);
    let most = pow2(up);
    assert(n * p <= most * p) by (nonlinear_arith)
        requires
            n <= most,
            p >= 0,
    ;
    lemma_rounded_amount(n * p, 1, up + FINEST as nat);
    if n > 0 {
        let least = pow2(low);
        assert(least * p <= n * p) by (nonlinear_arith)
            requires
                least <= n,
                p >= 0,
        ;
        let size = lemma_power_is_finite(low + FINEST as nat);
        lemma_nearest_at_least(n * p, 1, size);
    }
}

/// A time that has passed, in seconds, is a number above zero: no less than two to the
/// power of -30.
pub proof fn lemma_seconds(nanoseconds: nat)
    requires
        0 < nanoseconds <= u64::MAX,
    ensures
        is_amount(Double::seconds(nanoseconds)),
        pow2(1044) <= Double::seconds(nanoseconds).value() <= pow2(1110),
        Double::zero().less(Double::seconds(nanoseconds)),
{
    let whole = nanoseconds / 1_000_000_000;
    let rest = nanoseconds % 1_000_000_000;
    let a = Double::integer(whole);
    let b = Double::integer(rest);
    let c = Double::integer(1_000_000_000);
    let q = b.quotient(c);
    lemma2_to64();
    lemma2_to64_rest();
    lemma_powers();
    lemma_integer_between(whole, 0, 35);
    lemma_integer_between(rest, 0, 30);
    lemma_integer_between(1_000_000_000, 29, 30);
    lemma_pow2_pos(1103);
    lemma_quotient_at_most(b, c, 1104, 1103, 1075);
    if rest > 0 {
        lemma_quotient_at_least(b, c, 1074, 1104, 1044);
    }
    lemma_pow2_strictly_increases(1044, 1074);
    lemma_pow2_strictly_increases(1075, 1109);
    lemma_pow2_unfold(1110);
    let exact = a.value() + q.value();
    lemma_pow2_pos(1044);
    assert(pow2(1044) <= exact <= pow2(1110));
    lemma_rounded_amount(exact as nat, 1, 1110);
    let size = lemma_power_is_finite(1044);
    lemma_nearest_at_least(exact as nat, 1, size);
    let seconds = Double::seconds(nanoseconds);
    assert(seconds == Double::rounded(false, exact as nat, 1));
    assert(seconds.size() > 0) by {
        assert(units(0) == 0);
    }
}

/// No time is no seconds.
pub proof fn lemma_no_seconds()
    ensures
        Double::seconds(0).equals(Double::zero()),
{
    let c = Double::integer(1_000_000_000);
    lemma2_to64_rest();
    lemma2_to64();
    lemma_integers(0, 1_000_000_000);
    lemma_integers(1_000_000_000, 1_000_000_000);
    lemma_units_increase(0, c.size());
    assert(units(0) == 0);
    assert(0 * pow2(FINEST as nat) == 0) by (nonlinear_arith);
    lemma_nearest_at_most(0, units(c.size()), 0);
    assert(Double::integer(0).quotient(c).size() == 0);
}

/// What has so many binary digits is a number.
pub proof fn lemma_digits_are_a_number(m: nat, e: nat) -> (size: nat)
    requires
        m < 2 * HIDDEN,
        e < 2046,
    ensures
        size < INFINITE,
        units(size) == m * pow2(e),
    decreases e,
{
    lemma_powers();
    if m >= HIDDEN || e == 0 {
        lemma_units_at(e, m);
        e * HIDDEN as nat + m
    } else {
        let less = (e - 1) as nat;
        lemma_pow2_unfold(e);
        let p = pow2(less);
        assert((2 * m) * p == m * (2 * p)) by (nonlinear_arith);
        lemma_digits_are_a_number(2 * m, less)
    }
}

/// Sixty is a number, and how far the next one is from it.
proof fn lemma_sixty()
    ensures
        ({
            let size = Double::integer(60).size();
            &&& is_amount(Double::integer(60))
            &&& units(size) == 60 * pow2(1074)
            &&& units(size + 1) == units(size) + pow2(1027)
            &&& size % 2 == 0
            &&& size == 1027 * HIDDEN + 15 * pow2(49)
        }),
{
    lemma_powers();
    lemma2_to64();
    lemma2_to64_rest();
    lemma_integer_is_exact(60, 15, 2, 49, 1027);
    let m = 15 * pow2(49);
    lemma_units_at(1027, m + 1);
    lemma_units_at(1027, m);
    let p = pow2(1027);
    assert((m + 1) * p == m * p + p) by (nonlinear_arith);
}

/// A minute before a time of a minute or more is a number itself, where the last digit of
/// the time counts four seconds at most.
proof fn lemma_exact_minute(at: Double)
    requires
        is_amount(at),
        60 * pow2(1074) <= at.value() < pow2(1129),
    ensures
        at.difference(Double::integer(60)).value() == at.value() - 60 * pow2(1074),
{
    let (scale, m) = lemma_parts(at.size());
    let p = pow2(scale);
    let v = at.value() as nat;
    lemma_powers();
    lemma_sixty();
    lemma_units_at(scale, m);
    if scale > 1076 {
        lemma_pow2_adds(52, scale);
        lemma_pow2_adds(52, 1077);
        if scale > 1077 {
            lemma_pow2_strictly_increases(1077, scale);
        }
        let h = HIDDEN as nat;
        assert(m * p >= h * p) by (nonlinear_arith)
            requires
                m >= h,
                p >= 0,
        ;
        assert(false);
    }
    let up = (1076 - scale) as nat;
    let f = pow2(up);
    lemma_pow2_adds(up, scale);
    lemma_pow2_adds(2, 1074);
    lemma2_to64();
    assert(60 * pow2(1074) == 15 * pow2(1076));
    assert(15 * (f * p) == (15 * f) * p) by (nonlinear_arith);
    lemma_pow2_pos(scale);
    assert(15 * f <= m) by (nonlinear_arith)
        requires
            (15 * f) * p <= m * p,
            p > 0,
    ;
    let rest = (m - 15 * f) as nat;
    assert(rest * p == m * p - (15 * f) * p) by (nonlinear_arith)
        requires
            rest == m - 15 * f,
    ;
    let size = lemma_digits_are_a_number(rest, scale);
    let exact = (v - 60 * pow2(1074)) as nat;
    assert(units(size) * 1 == exact);
    lemma_exact(size, 1);
    lemma_nearest(exact, 1, size);
    assert(at.value() + Double::integer(60).opposite().value() == exact);
    if exact == 0 {
        assert(units(0) == 0);
    }
}

/// The distance between two neighbours is no more than that above sixty, where the larger
/// of them is sixty at most.
proof fn lemma_gap_below_sixty(size: nat)
    requires
        0 < size <= Double::integer(60).size(),
    ensures
        units(size) - units((size - 1) as nat) <= pow2(1027),
{
    let (scale, m) = lemma_parts((size - 1) as nat);
    lemma_sixty();
    lemma_powers();
    lemma2_to64_rest();
    lemma_units_at(scale, m);
    lemma_units_at(scale, m + 1);
    let p = pow2(scale);
    assert((m + 1) * p == m * p + p) by (nonlinear_arith);
    assert(scale <= 1027);
    if scale < 1027 {
        lemma_pow2_strictly_increases(scale, 1027);
    }
}

/// What is left of a minute, rounded, and what was taken from it are a minute again once
/// they are added up and rounded.
proof fn lemma_parts_of_a_minute(v: nat)
    requires
        v < 60 * pow2(1074),
    ensures
        nearest(units(nearest((60 * pow2(1074) - v) as nat, 1)) + v, 1)
            <= Double::integer(60).size(),
{
    let top = Double::integer(60).size();
    let minute = 60 * pow2(1074);
    let d = (minute - v) as nat;
    let size = nearest(d, 1);
    let half = pow2(1026);
    lemma_sixty();
    assert(units(top) * 1 == minute);
    lemma_nearest_at_most(d, 1, top);
    lemma_rounded(d, 1);
    lemma_pow2_unfold(1027);
    lemma_pow2_pos(1026);
    let counted = units(size);
    assert(counted <= d + half) by {
        if size > 0 {
            lemma_gap_below_sixty(size);
            assert((units((size - 1) as nat) + units(size)) * 1 <= 2 * d);
        } else {
            assert(units(0) == 0);
        }
    }
    let middle = minute + half;
    lemma_units_step((top - 1) as nat);
    assert(rounds_to(middle, 1, top)) by {
        assert((units((top - 1) as nat) + units(top)) * 1 < 2 * middle);
        assert((units(top) + units(top + 1)) * 1 == 2 * middle);
    }
    lemma_nearest(middle, 1, top);
    lemma_nearest_grows(counted + v, 1, middle, 1);
}

proof fn lemma_negated(size: nat, bound: Double)
    requires
        is_amount(bound),
        size <= bound.size(),
    ensures
        bound.opposite().at_most(Double::signed_size(true, size)),
        bound.opposite().at_most(Double::signed_size(false, size)),
{
}

/// Before a time of less than a minute, the start of the minute is rounded by no more than
/// the distance to it can hide.
proof fn lemma_short_minute(at: Double, start: Double)
    requires
        at.finite(),
        0 <= at.value() < 60 * pow2(1074),
        start.finite(),
        start.value() == at.difference(Double::integer(60)).value(),
    ensures
        Double::integer(60).opposite().at_most(start.difference(at)),
{
    let sixty = Double::integer(60);
    let v = at.value() as nat;
    let d = (60 * pow2(1074) - v) as nat;
    let counted = units(nearest(d, 1));
    lemma_sixty();
    lemma_parts_of_a_minute(v);
    lemma_rounded(d, 1);
    assert(at.value() + sixty.opposite().value() == -d);
    assert(at.difference(sixty) == Double::rounded(true, d, 1));
    assert(start.value() == -counted);
    let total = counted + v;
    let both = start.negative() && at.opposite().negative();
    assert(start.value() + at.opposite().value() == -total);
    assert(start.difference(at) == Double::rounded_sum(-total, both));
    lemma_negated(nearest(total, 1), sixty);
    lemma_negated(0, sixty);
}

/// What lies at the start of the minute before an ordinary time is not further from it than
/// a minute, rounding or no rounding.
pub proof fn lemma_minute_is_kept(at: Double, start: Double)
    requires
        Double::zero().at_most(at),
        at.at_most(Double::integer(1_000_000_000_000)),
        start.finite(),
        start.equals(at.difference(Double::integer(60))),
    ensures
        Double::integer(60).opposite().at_most(start.difference(at)),
{
    let sixty = Double::integer(60);
    let limit = Double::integer(1_000_000_000_000);
    lemma2_to64();
    lemma2_to64_rest();
    lemma_powers();
    lemma_integer_between(1_000_000_000_000, 0, 40);
    lemma_pow2_strictly_increases(1114, 1129);
    lemma_order_is_numeric(Double::zero(), at);
    lemma_order_is_numeric(at, limit);
    assert(units(0) == 0);
    assert(0 <= at.value() < pow2(1129));
    lemma_sixty();
    lemma_order_is_numeric(start, at.difference(sixty));
    if at.value() >= 60 * pow2(1074) {
        lemma_pow2_pos(1074);
        lemma_exact_minute(at);
        let both = start.negative() && at.opposite().negative();
        assert(start.value() + at.opposite().value() == sixty.opposite().value());
        lemma_number_rounds_to_itself(sixty.opposite(), both);
    } else {
        lemma_short_minute(at, start);
    }
}

} // verus!
