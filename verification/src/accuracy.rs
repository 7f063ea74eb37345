//! How far the results of arithmetic are from the exact ones: half of the last binary
//! digit at most.

use crate::arithmetic::{
    lemma_differences_in_order, lemma_integers, lemma_nearest_at_most, lemma_no_difference,
    lemma_number_rounds_to_itself, lemma_rounded_sum_grows, lemma_share,
};
use crate::double::{
    lemma_order_is_numeric, lemma_parts, lemma_units_at, lemma_units_increase, lemma_units_step,
    units, Double, FINEST, HIDDEN, INFINITE,
};
use crate::magnitudes::{
    is_amount, lemma_digits_are_a_number, lemma_integer_between, lemma_product_at_most,
    lemma_quotient_at_least, lemma_quotient_at_most, lemma_rounded_amount, lemma_seconds,
};
use crate::margins::lemma_nearest_at_least;
use crate::rounding::{lemma_exact, lemma_nearest, lemma_powers, lemma_rounded, nearest};
use vstd::arithmetic::power2::{
    lemma2_to64, lemma2_to64_rest, lemma_pow2_adds, lemma_pow2_pos, lemma_pow2_strictly_increases,
    lemma_pow2_unfold, pow2,
};
use vstd::math::{abs, max};
use vstd::prelude::*;

verus! {

/// How many numbers there are from a power of two to the next, twice: 2 to the power of 53.
pub const PRECISION: u64 = 0x20_0000_0000_0000;

/// Whether a number of units is a fraction rounded to the last binary digit.
pub open spec fn is_rounded(value: int, num: int, den: nat) -> bool {
    PRECISION * abs(value * den - num) <= (abs(value) + HIDDEN) * den
}

/// Whether a number of units is another one rounded to the last binary digit.
pub open spec fn is_close(value: int, exact: int) -> bool {
    PRECISION * abs(value - exact) <= abs(value)
}

proof fn lemma_gaps(size: nat)
    ensures
        HIDDEN * (units(size + 1) - units(size)) <= units(size) || units(size + 1) == units(size)
            + 1,
        size > 0 ==> HIDDEN * (units(size) - units((size - 1) as nat)) <= units(size) || units(size)
            == units((size - 1) as nat) + 1,
{
    let (scale, m) = lemma_parts(size);
    let h = HIDDEN as nat;
    let p = pow2(scale);
    lemma_powers();
    lemma_units_at(scale, m);
    lemma_units_at(scale, m + 1);
    assert((m + 1) * p == m * p + p) by (nonlinear_arith);
    if scale > 0 {
        assert(h * p <= m * p) by (nonlinear_arith)
            requires
                h <= m,
        ;
    }
    if size > 0 {
        let (under, n) = lemma_parts((size - 1) as nat);
        let q = pow2(under);
        lemma_units_at(under, n);
        lemma_units_at(under, n + 1);
        assert((n + 1) * q == n * q + q) by (nonlinear_arith);
        if under > 0 {
            assert(h * q <= n * q) by (nonlinear_arith)
                requires
                    h <= n,
            ;
        }
    }
}

/// A fraction is rounded by half of the last binary digit at most, and a whole number of
/// units by no more than its own part of it.
pub proof fn lemma_rounding_error(num: nat, den: nat)
    requires
        den > 0,
        nearest(num, den) < INFINITE,
    ensures
        is_rounded(units(nearest(num, den)) as int, num as int, den),
        den == 1 ==> is_close(units(nearest(num, den)) as int, num as int),
{
    let size = nearest(num, den);
    let here = units(size);
    let next = units(size + 1);
    lemma_rounded(num, den);
    lemma_gaps(size);
    lemma_units_step(size);
    let up = (next - here) as nat;
    assert((here + next) * den == 2 * (here * den) + up * den) by (nonlinear_arith)
        requires
            next == here + up,
    ;
    lemma_half(up, here, den);
    if size > 0 {
        let last = units((size - 1) as nat);
        lemma_units_step((size - 1) as nat);
        let down = (here - last) as nat;
        assert((last + here) * den == 2 * (here * den) - down * den) by (nonlinear_arith)
            requires
                last == here - down,
        ;
        lemma_half(down, here, den);
    } else {
        assert(units(0) == 0);
    }
}

proof fn lemma_half(gap: nat, here: nat, den: nat)
    requires
        HIDDEN * gap <= here || gap == 1,
    ensures
        HIDDEN * (gap * den) <= (here + HIDDEN) * den,
        den == 1 && gap != 1 ==> HIDDEN * (gap * den) <= here,
{
    let h = HIDDEN as nat;
    assert(h * (gap * den) == (h * gap) * den) by (nonlinear_arith);
    let all = h * gap;
    assert(all * den <= (here + h) * den) by (nonlinear_arith)
        requires
            all <= here + h,
    ;
}

/// A number of a sign and a finite size counts what its size does, with that sign.
proof fn lemma_signed_value(negative: bool, size: nat)
    requires
        size < INFINITE,
    ensures
        Double::signed_size(negative, size).finite(),
        Double::signed_size(negative, size).value() == if negative {
            -(units(size) as int)
        } else {
            units(size) as int
        },
        Double::signed_size(negative, size).size() == size,
{
}

/// The sum of two numbers is what they count together, rounded to the last binary digit.
pub proof fn lemma_sum_is_close(a: Double, b: Double)
    requires
        a.finite(),
        b.finite(),
        a.sum(b).finite(),
    ensures
        is_close(a.sum(b).value(), a.value() + b.value()),
{
    let exact = a.value() + b.value();
    let n = abs(exact);
    assert(units(0) == 0);
    lemma_rounded(n, 1);
    assert(exact != 0 ==> a.sum(b).size() == nearest(n, 1));
    if exact != 0 {
        lemma_rounding_error(n, 1);
        lemma_signed_value(exact < 0, nearest(n, 1));
    } else {
        lemma_signed_value(a.negative() && b.negative(), 0);
    }
}

/// The difference of two numbers is how far they are apart, rounded to the last binary
/// digit.
pub proof fn lemma_difference_is_close(a: Double, b: Double)
    requires
        a.finite(),
        b.finite(),
        a.difference(b).finite(),
    ensures
        is_close(a.difference(b).value(), a.value() - b.value()),
{
    lemma_sum_is_close(a, b.opposite());
}

/// The product of two numbers, rounded to the last binary digit.
pub proof fn lemma_product_is_rounded(a: Double, b: Double)
    requires
        a.finite(),
        b.finite(),
        a.product(b).finite(),
    ensures
        is_rounded(a.product(b).value(), a.value() * b.value(), pow2(FINEST as nat)),
{
    let x = units(a.size());
    let y = units(b.size());
    let p = pow2(FINEST as nat);
    let negative = a.negative() != b.negative();
    lemma_pow2_pos(FINEST as nat);
    lemma_rounded(x * y, p);
    let size = nearest(x * y, p);
    assert(a.product(b).size() == size);
    lemma_rounding_error(x * y, p);
    lemma_signed_value(negative, size);
    let u = units(size);
    assert((-x) * y == -(x * y)) by (nonlinear_arith);
    assert(x * (-y) == -(x * y)) by (nonlinear_arith);
    assert((-x) * (-y) == x * y) by (nonlinear_arith);
    assert((-u) * p == -(u * p)) by (nonlinear_arith);
}

/// The quotient of two numbers, rounded to the last binary digit.
pub proof fn lemma_quotient_is_rounded(a: Double, b: Double)
    requires
        a.finite(),
        b.finite(),
        b.value() > 0,
        a.quotient(b).finite(),
    ensures
        is_rounded(a.quotient(b).value(), a.value() * pow2(FINEST as nat), b.value() as nat),
{
    let x = units(a.size());
    let y = units(b.size());
    let p = pow2(FINEST as nat);
    assert(units(0) == 0);
    lemma_rounded(x * p, y);
    let size = nearest(x * p, y);
    assert(a.quotient(b).size() == size);
    lemma_rounding_error(x * p, y);
    lemma_signed_value(a.negative(), size);
    let u = units(size);
    assert((-x) * p == -(x * p)) by (nonlinear_arith);
    assert((-u) * y == -(u * y)) by (nonlinear_arith);
}

/// The number of an integer, rounded to the last binary digit.
pub proof fn lemma_integer_is_close(n: nat)
    requires
        Double::integer(n).finite(),
    ensures
        is_close(Double::integer(n).value(), (n * pow2(FINEST as nat)) as int),
        Double::integer(n).value() >= 0,
{
    let exact = n * pow2(FINEST as nat);
    lemma_rounded(exact, 1);
    let size = nearest(exact, 1);
    assert(Double::integer(n).size() == size);
    lemma_rounding_error(exact, 1);
    lemma_signed_value(false, size);
}

/// An integer of no more binary digits than a number has is a number itself.
pub proof fn lemma_small_integer(n: nat)
    requires
        n < PRECISION,
    ensures
        Double::integer(n).finite(),
        !Double::integer(n).negative(),
        Double::integer(n).value() == n * pow2(FINEST as nat),
{
    let size = lemma_digits_are_a_number(n, FINEST as nat);
    let exact = n * pow2(FINEST as nat);
    lemma_exact(size, 1);
    assert(units(size) * 1 == exact);
    lemma_nearest(exact, 1, size);
    lemma_signed_value(false, size);
}

// ---------------------------------------------------------------------------
// Errors of more than one step
// ---------------------------------------------------------------------------

/// Whether two numbers of units differ by no more than so many parts of the last binary
/// digit.
pub open spec fn differ_by(a: int, b: int, parts: int) -> bool {
    PRECISION * abs(a - b) <= parts
}

/// Errors add up.
pub proof fn lemma_errors_add_up(a: int, b: int, c: int, first: int, second: int)
    requires
        differ_by(a, b, first),
        differ_by(b, c, second),
    ensures
        differ_by(a, c, first + second),
{
}

/// An error grows with the number that both sides are multiplied with.
pub proof fn lemma_error_times(a: int, b: int, parts: int, factor: int)
    requires
        differ_by(a, b, parts),
        factor >= 0,
    ensures
        differ_by(a * factor, b * factor, parts * factor),
{
    let e = PRECISION as int;
    let d = abs(a - b) as int;
    assert(a * factor - b * factor == (a - b) * factor) by (nonlinear_arith);
    if a < b {
        assert((a - b) * factor == -(d * factor)) by (nonlinear_arith)
            requires
                a - b == -d,
        ;
    }
    assert(d * factor >= 0) by (nonlinear_arith)
        requires
            d >= 0,
            factor >= 0,
    ;
    assert(e * (d * factor) <= parts * factor) by (nonlinear_arith)
        requires
            e * d <= parts,
            factor >= 0,
    ;
}

/// An error shrinks with the number that both sides are multiplied with less.
pub proof fn lemma_error_over(a: int, b: int, parts: int, factor: int)
    requires
        differ_by(a * factor, b * factor, parts * factor),
        factor > 0,
    ensures
        differ_by(a, b, parts),
{
    let e = PRECISION as int;
    let d = abs(a - b) as int;
    assert(a * factor - b * factor == (a - b) * factor) by (nonlinear_arith);
    if a < b {
        assert((a - b) * factor == -(d * factor)) by (nonlinear_arith)
            requires
                a - b == -d,
        ;
    }
    assert(d * factor >= 0) by (nonlinear_arith)
        requires
            d >= 0,
            factor >= 0,
    ;
    assert(e * d <= parts) by (nonlinear_arith)
        requires
            e * (d * factor) <= parts * factor,
            factor > 0,
    ;
}

/// A larger error is one too.
pub proof fn lemma_error_at_most(a: int, b: int, parts: int, more: int)
    requires
        differ_by(a, b, parts),
        parts <= more,
    ensures
        differ_by(a, b, more),
{
}

/// How far a quotient of two rounded numbers is from the exact one: so many parts of the
/// last binary digit of `most`, which neither of the two quotients exceeds.
///
/// `x` and `y` are rounded to `a` and `b`, and `a / b` to `q` parts of `unit`.
pub proof fn lemma_quotient_error(
    x: nat,
    y: nat,
    a: nat,
    b: nat,
    q: nat,
    unit: nat,
    most: nat,
)
    requires
        y > 0,
        is_close(a as int, x as int),
        is_close(b as int, y as int),
        is_rounded(q as int, (a * unit) as int, b),
        HIDDEN <= most,
        q <= most,
        x * unit <= most * y,
    ensures
        differ_by((q * y) as int, (x * unit) as int, (8 * most * y) as int),
{
    let e = PRECISION as int;
    assert(b <= 2 * y);
    assert(a <= 2 * x);
    assert(differ_by(a as int, x as int, (2 * x) as int));
    assert(differ_by(y as int, b as int, (2 * y) as int));
    lemma_error_times(a as int, x as int, (2 * x) as int, unit as int);
    lemma_error_times(y as int, b as int, (2 * y) as int, q as int);
    assert((2 * x) * unit == 2 * (x * unit)) by (nonlinear_arith);
    assert((2 * y) * q <= 2 * (most * y)) by (nonlinear_arith)
        requires
            q <= most,
            y >= 0,
    ;
    assert((q + HIDDEN) * b <= 4 * (most * y)) by (nonlinear_arith)
        requires
            q <= most,
            HIDDEN <= most,
            0 <= b <= 2 * y,
    ;
    assert(y * q == q * y) by (nonlinear_arith);
    assert(b * q == q * b) by (nonlinear_arith);
    assert(8 * most * y == 8 * (most * y)) by (nonlinear_arith);
    assert(differ_by((q * b) as int, (a * unit) as int, (4 * (most * y)) as int));
    lemma_errors_add_up(
        (q * y) as int,
        (q * b) as int,
        (a * unit) as int,
        (2 * (most * y)) as int,
        (4 * (most * y)) as int,
    );
    lemma_errors_add_up(
        (q * y) as int,
        (a * unit) as int,
        (x * unit) as int,
        (6 * (most * y)) as int,
        (2 * (most * y)) as int,
    );
}

/// Whether a number is the share of a part of a whole in percent, but for rounding: no more
/// than two to the power of -43 away from it.
pub open spec fn is_percentage(share: Double, part: nat, whole: nat) -> bool {
    let one = pow2(FINEST as nat);
    &&& share.finite()
    &&& 0x800_0000_0000 * abs(share.value() * whole - 100 * part * one) <= whole * one
}

/// A hundred times the quotient of a part and a whole is its share in percent.
pub proof fn lemma_percentage(part: nat, whole: nat)
    requires
        part <= whole < 0x8000_0000_0000_0000_0000_0000_0000_0000,
        whole > 0,
    ensures
        is_percentage(
            Double::integer(part).quotient(Double::integer(whole)).product(Double::integer(100)),
            part,
            whole,
        ),
{
    let one = pow2(FINEST as nat);
    let a = Double::integer(part);
    let b = Double::integer(whole);
    let q = a.quotient(b);
    let share = q.product(Double::integer(100));
    lemma_integers(part, whole);
    lemma_integers(whole, whole);
    lemma_share(part, whole);
    lemma_quotient_of_part(part, whole);
    lemma_integer_is_close(part);
    lemma_integer_is_close(whole);
    lemma_small_integer(100);
    lemma_order_is_numeric(Double::zero(), share);
    lemma_order_is_numeric(share, Double::integer(100));
    lemma_order_is_numeric(a, b);
    assert(units(0) == 0);
    lemma_product_is_rounded(q, Double::integer(100));
    lemma_pow2_pos(FINEST as nat);
    lemma_powers();
    lemma_quotient_is_rounded(a, b);
    lemma_percent_error(
        part,
        whole,
        a.value() as nat,
        b.value() as nat,
        q.value() as nat,
        share.value() as nat,
        one,
    );
}

/// The quotient of a part and a whole is no more than one.
proof fn lemma_quotient_of_part(part: nat, whole: nat)
    requires
        part <= whole < 0x8000_0000_0000_0000_0000_0000_0000_0000,
        whole > 0,
    ensures
        ({
            let b = Double::integer(whole);
            let q = Double::integer(part).quotient(b);
            &&& b.value() > 0
            &&& q.finite()
            &&& 0 <= q.value() <= pow2(FINEST as nat)
            &&& pow2(FINEST as nat) >= HIDDEN
        }),
{
    let one = pow2(FINEST as nat);
    let a = Double::integer(part);
    let b = Double::integer(whole);
    lemma_integers(part, whole);
    lemma_integers(whole, whole);
    lemma_order_is_numeric(a, b);
    lemma_units_increase(0, b.size());
    assert(units(0) == 0);
    lemma_powers();
    lemma_pow2_strictly_increases(52, FINEST as nat);
    let x = units(a.size());
    let y = units(b.size());
    assert(x * one <= one * y) by (nonlinear_arith)
        requires
            x <= y,
    ;
    lemma_rounded_amount(x * one, y, FINEST as nat);
}

proof fn lemma_percent_error(
    part: nat,
    whole: nat,
    a: nat,
    b: nat,
    q: nat,
    share: nat,
    one: nat,
)
    requires
        0 < part <= whole || 0 == part < whole,
        one >= HIDDEN,
        is_close(a as int, (part * one) as int),
        is_close(b as int, (whole * one) as int),
        is_rounded(q as int, (a * one) as int, b),
        is_rounded(share as int, (q * (100 * one)) as int, one),
        q <= one,
        share <= 100 * one,
    ensures
        0x800_0000_0000 * abs((share * whole - 100 * part * one) as int) <= whole * one,
{
    let x = part * one;
    let y = whole * one;
    assert(y > 0) by (nonlinear_arith)
        requires
            y == whole * one,
            whole > 0,
            one > 0,
    ;
    assert(x * one <= one * y) by (nonlinear_arith)
        requires
            x == part * one,
            y == whole * one,
            part <= whole,
    ;
    lemma_quotient_error(x, y, a, b, q, one, one);
    assert(q * y == (q * whole) * one) by (nonlinear_arith)
        requires
            y == whole * one,
    ;
    assert(8 * one * y == (8 * y) * one) by (nonlinear_arith);
    lemma_error_over((q * whole) as int, x as int, (8 * y) as int, one as int);
    assert(q * (100 * one) == (100 * q) * one) by (nonlinear_arith);
    assert((share + HIDDEN) * one <= (101 * one) * one) by (nonlinear_arith)
        requires
            share + HIDDEN <= 101 * one,
    ;
    lemma_error_over(share as int, (100 * q) as int, (101 * one) as int, one as int);
    lemma_error_times(share as int, (100 * q) as int, (101 * one) as int, whole as int);
    assert((100 * q) * whole == 100 * (q * whole)) by (nonlinear_arith);
    assert((101 * one) * whole == 101 * y) by (nonlinear_arith)
        requires
            y == whole * one,
    ;
    lemma_error_times((q * whole) as int, x as int, (8 * y) as int, 100);
    lemma_errors_add_up(
        (share * whole) as int,
        (100 * (q * whole)) as int,
        (100 * x) as int,
        (101 * y) as int,
        (800 * y) as int,
    );
    assert(100 * part * one == 100 * x) by (nonlinear_arith)
        requires
            x == part * one,
    ;
}

// ---------------------------------------------------------------------------
// Sums of many
// ---------------------------------------------------------------------------

/// What items measure together, exactly.
pub open spec fn added<T>(items: Seq<T>, measure: spec_fn(T) -> int) -> int
    decreases items.len(),
{
    if items.len() == 0 {
        0
    } else {
        added(items.drop_last(), measure) + measure(items.last())
    }
}

proof fn lemma_added_without<T>(items: Seq<T>, measure: spec_fn(T) -> int, i: int)
    requires
        0 <= i < items.len(),
    ensures
        added(items, measure) == added(items.remove(i), measure) + measure(items[i]),
    decreases items.len(),
{
    let less = items.remove(i);
    if i == items.len() - 1 {
        assert(less =~= items.drop_last());
    } else {
        assert(less.drop_last() =~= items.drop_last().remove(i));
        assert(less.last() == items.last());
        lemma_added_without(items.drop_last(), measure, i);
    }
}

/// What items measure together does not depend on their order.
pub proof fn lemma_order_does_not_matter<T>(a: Seq<T>, b: Seq<T>, measure: spec_fn(T) -> int)
    requires
        a.to_multiset() == b.to_multiset(),
    ensures
        added(a, measure) == added(b, measure),
        a.len() == b.len(),
    decreases a.len(),
{
    vstd::seq_lib::to_multiset_len(a);
    vstd::seq_lib::to_multiset_len(b);
    if a.len() > 0 {
        let last = a.last();
        vstd::seq_lib::to_multiset_contains(a, last);
        vstd::seq_lib::to_multiset_contains(b, last);
        assert(a[a.len() - 1] == last);
        let i = choose|i: int| 0 <= i < b.len() && b[i] == last;
        vstd::seq_lib::to_multiset_remove(a, a.len() - 1);
        vstd::seq_lib::to_multiset_remove(b, i);
        assert(a.remove(a.len() - 1) =~= a.drop_last());
        lemma_order_does_not_matter(a.drop_last(), b.remove(i), measure);
        lemma_added_without(b, measure, i);
    }
}

/// A sum that counts no more than a power of two is finite.
pub proof fn lemma_sum_is_finite(a: Double, b: Double, k: nat)
    requires
        a.finite(),
        b.finite(),
        abs(a.value() + b.value()) <= pow2(k),
        k < 2098,
    ensures
        a.sum(b).finite(),
{
    let n = abs(a.value() + b.value());
    lemma_rounded_amount(n, 1, k);
    lemma_rounded(n, 1);
    if n > 0 {
        assert(Double::rounded(false, n, 1).size() == nearest(n, 1));
        lemma_signed_value(a.value() + b.value() < 0, nearest(n, 1));
    }
}

/// A quotient by an integer that is above zero is finite.
proof fn lemma_quotient_is_finite(a: Double, count: nat)
    requires
        a.finite(),
        0 < count < PRECISION,
    ensures
        a.quotient(Double::integer(count)).finite(),
        Double::integer(count).value() == count * pow2(FINEST as nat),
        Double::integer(count).value() > 0,
{
    let one = pow2(FINEST as nat);
    let b = Double::integer(count);
    lemma_small_integer(count);
    lemma_pow2_pos(FINEST as nat);
    assert(count * one >= one) by (nonlinear_arith)
        requires
            count >= 1,
            one >= 0,
    ;
    assert(units(0) == 0);
    let x = units(a.size());
    let y = units(b.size());
    assert(x * one <= x * y) by (nonlinear_arith)
        requires
            one <= y,
            x >= 0,
    ;
    lemma_nearest_at_most(x * one, y, a.size());
    lemma_signed_value(a.negative(), nearest(x * one, y));
}

/// Dividing a number into so many parts and putting them together again gives the number,
/// but for the rounding of a part.
pub proof fn lemma_parts_of_a_number(a: Double, count: nat)
    requires
        a.finite(),
        0 < count < PRECISION,
    ensures
        a.quotient(Double::integer(count)).finite(),
        differ_by(
            a.quotient(Double::integer(count)).value() * count,
            a.value(),
            (abs(a.quotient(Double::integer(count)).value()) + HIDDEN) * count,
        ),
{
    let one = pow2(FINEST as nat);
    let q = a.quotient(Double::integer(count));
    let v = q.value();
    lemma_quotient_is_finite(a, count);
    lemma_small_integer(count);
    lemma_quotient_is_rounded(a, Double::integer(count));
    lemma_pow2_pos(FINEST as nat);
    assert(v * (count * one) == (v * count) * one) by (nonlinear_arith);
    let parts = (abs(v) + HIDDEN) * count;
    assert((abs(v) + HIDDEN) * (count * one) == parts * one) by (nonlinear_arith)
        requires
            parts == (abs(v) + HIDDEN) * count,
    ;
    lemma_error_over(v * count, a.value(), parts as int, one as int);
}

// ---------------------------------------------------------------------------
// Points on a line
// ---------------------------------------------------------------------------

/// An error grows with the number that both sides are multiplied with, whatever its sign.
proof fn lemma_error_scaled(a: int, b: int, parts: int, factor: int)
    requires
        differ_by(a, b, parts),
    ensures
        differ_by(a * factor, b * factor, parts * abs(factor)),
{
    let size = abs(factor) as int;
    lemma_error_times(a, b, parts, size);
    if factor < 0 {
        assert(a * factor == -(a * size)) by (nonlinear_arith)
            requires
                factor == -size,
        ;
        assert(b * factor == -(b * size)) by (nonlinear_arith)
            requires
                factor == -size,
        ;
    }
}

/// The rounded value on a line, with `part` of `one` of the way gone, is off by parts of the
/// last binary digit of the larger end.
proof fn lemma_mix_error(
    y: int,
    n: int,
    part: int,
    rest: int,
    first: int,
    second: int,
    mixed: int,
    one: int,
    most: int,
)
    requires
        one >= HIDDEN,
        0 <= part <= one,
        0 <= rest <= one,
        is_close(rest, one - part),
        is_rounded(first, y * rest, one as nat),
        is_rounded(second, n * part, one as nat),
        is_close(mixed, first + second),
        abs(y) <= most,
        abs(n) <= most,
        abs(first) <= most,
        abs(second) <= most,
    ensures
        differ_by(mixed * one, y * one + (n - y) * part, (7 * most + 2 * HIDDEN) * one),
{
    let h = HIDDEN as int;
    assert(differ_by(mixed, first + second, 4 * most));
    lemma_error_times(mixed, first + second, 4 * most, one);
    assert((first + second) * one == first * one + second * one) by (nonlinear_arith);
    assert((abs(first) + h) * one <= (most + h) * one) by (nonlinear_arith)
        requires
            abs(first) <= most,
            one >= 0,
    ;
    assert((abs(second) + h) * one <= (most + h) * one) by (nonlinear_arith)
        requires
            abs(second) <= most,
            one >= 0,
    ;
    assert(differ_by(rest, one - part, one));
    lemma_error_scaled(rest, one - part, one, y);
    assert(rest * y == y * rest) by (nonlinear_arith);
    assert(one * abs(y) <= most * one) by (nonlinear_arith)
        requires
            abs(y) <= most,
            one >= 0,
    ;
    assert((one - part) * y + n * part == y * one + (n - y) * part) by (nonlinear_arith);
    assert((4 * most) * one == 4 * (most * one)) by (nonlinear_arith);
    assert((most + h) * one == most * one + h * one) by (nonlinear_arith);
    assert((7 * most + 2 * h) * one == 7 * (most * one) + 2 * (h * one)) by (nonlinear_arith);
}

/// The value on a line after `gone` of `whole`, where the share of the way is rounded too.
proof fn lemma_line_error(
    y: int,
    n: int,
    part: int,
    mixed: int,
    one: int,
    most: int,
    gone: int,
    whole: int,
)
    requires
        one > 0,
        whole > 0,
        differ_by(mixed * one, y * one + (n - y) * part, (7 * most + 2 * HIDDEN) * one),
        differ_by(part * whole, gone * one, 8 * one * whole),
        abs(y) <= most,
        abs(n) <= most,
    ensures
        differ_by((mixed - y) * whole, (n - y) * gone, 32 * (most + HIDDEN) * whole),
{
    let h = HIDDEN as int;
    let k = n - y;
    let error = 7 * most + 2 * h;
    lemma_error_times(mixed * one, y * one + k * part, error * one, whole);
    lemma_error_scaled(part * whole, gone * one, 8 * one * whole, k);
    let area = one * whole;
    assert((mixed * one) * whole == mixed * area) by (nonlinear_arith)
        requires
            area == one * whole,
    ;
    assert((y * one + k * part) * whole == y * area + (part * whole) * k) by (nonlinear_arith)
        requires
            area == one * whole,
    ;
    assert((error * one) * whole == error * area) by (nonlinear_arith)
        requires
            area == one * whole,
    ;
    assert(area > 0) by (nonlinear_arith)
        requires
            area == one * whole,
            one > 0,
            whole > 0,
    ;
    assert(8 * one * whole * abs(k) <= 16 * (most * area)) by (nonlinear_arith)
        requires
            abs(k) <= 2 * most,
            area == one * whole,
            area > 0,
    ;
    assert(error * area == 7 * (most * area) + 2 * (h * area)) by (nonlinear_arith)
        requires
            error == 7 * most + 2 * h,
    ;
    assert(most * area >= 0) by (nonlinear_arith)
        requires
            most >= 0,
            area > 0,
    ;
    let all = 32 * (most + h) * whole;
    assert(all * one == 32 * (most * area) + 32 * (h * area)) by (nonlinear_arith)
        requires
            all == 32 * (most + h) * whole,
            area == one * whole,
    ;
    assert((mixed - y) * whole * one == mixed * area - y * area) by (nonlinear_arith)
        requires
            area == one * whole,
    ;
    assert((gone * one) * k == k * gone * one) by (nonlinear_arith);
    assert(differ_by((mixed - y) * whole * one, k * gone * one, all * one));
    lemma_error_over((mixed - y) * whole, k * gone, all, one);
}

/// A product with a factor of one at most counts no more.
proof fn lemma_product_of_part(a: Double, part: Double)
    requires
        a.finite(),
        part.finite(),
        0 <= part.value() <= pow2(FINEST as nat),
    ensures
        a.product(part).finite(),
        abs(a.product(part).value()) <= abs(a.value()),
        part.value() == 0 ==> a.product(part).value() == 0,
        part.value() == pow2(FINEST as nat) ==> abs(a.product(part).value()) == abs(a.value()),
        a.product(part).size() > 0 && !part.negative() ==> a.product(part).negative()
            == a.negative(),
{
    let one = pow2(FINEST as nat);
    let x = units(a.size());
    let y = units(part.size());
    let negative = a.negative() != part.negative();
    lemma_pow2_pos(FINEST as nat);
    assert(units(0) == 0);
    assert(y == part.value());
    assert(x * y <= x * one) by (nonlinear_arith)
        requires
            y <= one,
            x >= 0,
    ;
    lemma_nearest_at_most(x * y, one, a.size());
    lemma_signed_value(negative, nearest(x * y, one));
    if y == 0 {
        assert(x * y == 0) by (nonlinear_arith)
            requires
                y == 0,
        ;
        lemma_nearest_at_most(0, one, 0);
    }
    if y == one {
        lemma_exact(a.size(), one);
        lemma_nearest(x * one, one, a.size());
    }
}

/// What is left of one is no less than nothing and no more than one, and all of it or
/// nothing where nothing or all is taken away.
proof fn lemma_rest_of_one(part: Double)
    requires
        part.finite(),
        0 <= part.value() <= pow2(FINEST as nat),
    ensures
        Double::integer(1).value() == pow2(FINEST as nat),
        Double::integer(1).finite(),
        Double::integer(1).difference(part).finite(),
        0 <= Double::integer(1).difference(part).value() <= pow2(FINEST as nat),
        part.value() == 0 ==> Double::integer(1).difference(part).value() == pow2(FINEST as nat),
        part.value() == pow2(FINEST as nat) ==> Double::integer(1).difference(part).value() == 0,
        is_close(
            Double::integer(1).difference(part).value(),
            pow2(FINEST as nat) - part.value(),
        ),
{
    let one = Double::integer(1);
    let rest = one.difference(part);
    lemma_small_integer(1);
    let exact = one.value() - part.value();
    assert(one.value() + part.opposite().value() == exact);
    let both = one.negative() && part.opposite().negative();
    assert(units(0) == 0);
    lemma_rounded_sum_grows(exact, one.value(), both, false);
    lemma_rounded_sum_grows(0, exact, false, both);
    lemma_number_rounds_to_itself(one, false);
    lemma_number_rounds_to_itself(one, both);
    lemma_signed_value(false, 0);
    lemma_signed_value(both, 0);
    lemma_order_is_numeric(rest, one);
    lemma_order_is_numeric(Double::zero(), rest);
    if exact == one.value() {
        lemma_order_is_numeric(rest, one);
    }
    lemma_difference_is_close(one, part);
}

/// A share of a way is no less than nothing and no more than one, and close to what has been
/// gone over the whole.
pub proof fn lemma_share_of_way(gone: Double, whole: Double, exact: int, all: int)
    requires
        gone.finite(),
        whole.finite(),
        0 <= exact <= all,
        all > 0,
        is_close(gone.value(), exact),
        is_close(whole.value(), all),
        gone.value() <= whole.value(),
    ensures
        ({
            let part = gone.quotient(whole);
            let one = pow2(FINEST as nat) as int;
            &&& part.finite()
            &&& 0 <= part.value() <= one
            &&& differ_by(part.value() * all, exact * one, 8 * one * all)
            &&& exact == 0 ==> part.value() == 0
            &&& gone.value() == whole.value() ==> part.value() == one
            &&& one >= HIDDEN
        }),
{
    let part = gone.quotient(whole);
    let one = pow2(FINEST as nat);
    assert(gone.value() >= 0);
    assert(whole.value() > 0);
    assert(units(0) == 0);
    lemma_powers();
    lemma_pow2_strictly_increases(52, FINEST as nat);
    let x = units(gone.size());
    let y = units(whole.size());
    assert(x == gone.value() && y == whole.value());
    assert(x * one <= one * y) by (nonlinear_arith)
        requires
            x <= y,
    ;
    lemma_rounded_amount(x * one, y, FINEST as nat);
    lemma_rounded(x * one, y);
    let size = nearest(x * one, y);
    assert(Double::rounded(false, x * one, y).size() == size);
    lemma_signed_value(gone.negative(), size);
    if x > 0 {
        assert(!gone.negative());
        assert(part.value() == units(size));
    } else {
        assert(x * one == 0) by (nonlinear_arith)
            requires
                x == 0,
        ;
        lemma_nearest_at_most(0, y, 0);
        assert(part.value() == 0);
    }
    if x == y {
        let top = lemma_digits_are_a_number(1, FINEST as nat);
        lemma_exact(top, y);
        assert(units(top) * y == x * one) by (nonlinear_arith)
            requires
                units(top) == 1 * one,
                x == y,
        ;
        lemma_nearest(x * one, y, top);
    }
    lemma_quotient_is_rounded(gone, whole);
    assert(exact * one <= one * all) by (nonlinear_arith)
        requires
            exact <= all,
    ;
    lemma_quotient_error(
        exact as nat,
        all as nat,
        x,
        y,
        part.value() as nat,
        one,
        one,
    );
}

/// Whether a number stands on the line through two others, with so much gone of the way from
/// the first to the second, but for rounding.
pub open spec fn is_on_the_line(
    mixed: Double,
    y: Double,
    next: Double,
    gone: int,
    whole: int,
) -> bool {
    let most = max(abs(y.value()) as int, abs(next.value()) as int);
    &&& mixed.finite()
    &&& differ_by(
        (mixed.value() - y.value()) * whole,
        (next.value() - y.value()) * gone,
        32 * (most + HIDDEN) * whole,
    )
}

/// The mean of two numbers, weighed by how much of a way is left and how much is gone,
/// stands on the line through them. It is the first where the way begins and the second where
/// it ends.
pub proof fn lemma_on_the_line(y: Double, next: Double, at: Double, next_at: Double, here: Double)
    requires
        y.finite(),
        next.finite(),
        abs(y.value()) <= pow2(2096),
        abs(next.value()) <= pow2(2096),
        at.finite(),
        next_at.finite(),
        here.finite(),
        at.value() <= here.value() <= next_at.value(),
        at.value() < next_at.value(),
        next_at.difference(at).finite(),
    ensures
        ({
            let part = here.difference(at).quotient(next_at.difference(at));
            let mixed = y.product(Double::integer(1).difference(part)).sum(next.product(part));
            &&& is_on_the_line(
                mixed,
                y,
                next,
                here.value() - at.value(),
                next_at.value() - at.value(),
            )
            &&& here.value() == at.value() ==> mixed.value() == y.value()
            &&& here.value() == next_at.value() ==> mixed.value() == next.value()
        }),
{
    let gone = here.difference(at);
    let whole = next_at.difference(at);
    let part = gone.quotient(whole);
    let rest = Double::integer(1).difference(part);
    let first = y.product(rest);
    let second = next.product(part);
    let mixed = first.sum(second);
    let one = pow2(FINEST as nat) as int;
    let exact = here.value() - at.value();
    let all = next_at.value() - at.value();
    let most = max(abs(y.value()) as int, abs(next.value()) as int);
    lemma_way(at, next_at, here);
    lemma_share_of_way(gone, whole, exact, all);
    lemma_rest_of_one(part);
    lemma_product_of_part(y, rest);
    lemma_product_of_part(next, part);
    lemma_product_is_rounded(y, rest);
    lemma_product_is_rounded(next, part);
    lemma_pow2_unfold(2097);
    lemma_sum_is_finite(first, second, 2097);
    lemma_sum_is_close(first, second);
    lemma_mix_error(
        y.value(),
        next.value(),
        part.value(),
        rest.value(),
        first.value(),
        second.value(),
        mixed.value(),
        one,
        most,
    );
    lemma_line_error(
        y.value(),
        next.value(),
        part.value(),
        mixed.value(),
        one,
        most,
        exact,
        all,
    );
    if exact == 0 {
        lemma_whole_product(y, rest);
        lemma_sum_with_nothing(first, second);
    }
    if here.value() == next_at.value() {
        lemma_whole_product(next, part);
        lemma_sum_with_nothing(first, second);
    }
}

/// A product with one is the number itself.
proof fn lemma_whole_product(a: Double, factor: Double)
    requires
        a.finite(),
        factor.finite(),
        factor.value() == pow2(FINEST as nat),
    ensures
        a.product(factor).value() == a.value(),
{
    lemma_pow2_pos(FINEST as nat);
    lemma_product_of_part(a, factor);
    assert(units(0) == 0);
    assert(!factor.negative());
    let b = a.product(factor);
    assert(b.size() == 0 ==> b.value() == 0);
    if b.size() > 0 {
        assert(b.negative() == a.negative());
    }
}

/// A sum in which one number counts nothing is the other one.
proof fn lemma_sum_with_nothing(a: Double, b: Double)
    requires
        a.finite(),
        b.finite(),
        a.value() == 0 || b.value() == 0,
    ensures
        a.sum(b).value() == a.value() + b.value(),
{
    let both = a.negative() && b.negative();
    let other = if a.value() == 0 {
        b
    } else {
        a
    };
    lemma_number_rounds_to_itself(other, both);
    let sum = a.sum(b);
    assert(sum == Double::rounded_sum(other.value(), both));
    lemma_order_is_numeric(sum, other);
}

/// What has been gone of a way is no more than the whole, rounded or not.
pub proof fn lemma_way(at: Double, next_at: Double, here: Double)
    requires
        at.finite(),
        next_at.finite(),
        here.finite(),
        at.value() <= here.value() <= next_at.value(),
        next_at.difference(at).finite(),
    ensures
        ({
            let gone = here.difference(at);
            let whole = next_at.difference(at);
            &&& gone.finite()
            &&& gone.value() <= whole.value()
            &&& here.value() == next_at.value() ==> gone.value() == whole.value()
            &&& is_close(gone.value(), here.value() - at.value())
            &&& is_close(whole.value(), next_at.value() - at.value())
        }),
{
    let gone = here.difference(at);
    let whole = next_at.difference(at);
    lemma_order_is_numeric(at, here);
    lemma_order_is_numeric(here, next_at);
    lemma_order_is_numeric(next_at, here);
    lemma_differences_in_order(here, next_at, at);
    lemma_differences_in_order(at, here, at);
    lemma_no_difference(at, at);
    lemma_order_is_numeric(at, at);
    assert(gone.finite());
    lemma_order_is_numeric(gone, whole);
    if here.value() == next_at.value() {
        lemma_differences_in_order(next_at, here, at);
        lemma_order_is_numeric(whole, gone);
    }
    lemma_difference_is_close(here, at);
    lemma_difference_is_close(next_at, at);
}

// ---------------------------------------------------------------------------
// Times and rates
// ---------------------------------------------------------------------------

/// A billion times the seconds of so many nanoseconds are the nanoseconds, but for rounding.
pub proof fn lemma_seconds_are_nanoseconds(nanoseconds: nat)
    requires
        nanoseconds <= u64::MAX,
    ensures
        Double::seconds(nanoseconds).finite(),
        Double::seconds(nanoseconds).value() >= 0,
        differ_by(
            Double::seconds(nanoseconds).value() * 1_000_000_000,
            (nanoseconds * pow2(FINEST as nat)) as int,
            (4 * ((nanoseconds + 1_000_000_000) * pow2(FINEST as nat))) as int,
        ),
{
    let one = pow2(FINEST as nat);
    let whole = nanoseconds / 1_000_000_000;
    let rest = nanoseconds % 1_000_000_000;
    let a = Double::integer(whole);
    let b = Double::integer(rest);
    let q = b.quotient(Double::integer(1_000_000_000));
    let v = q.value();
    let seconds = Double::seconds(nanoseconds);
    lemma_small_integer(whole);
    lemma_small_integer(rest);
    lemma_quotient_of_part(rest, 1_000_000_000);
    lemma_parts_of_a_number(b, 1_000_000_000);
    assert((abs(v) + HIDDEN) * 1_000_000_000 <= 2_000_000_000 * one);
    assert(whole * one <= 0x20_0000_0000 * one) by (nonlinear_arith)
        requires
            whole <= 0x20_0000_0000,
    ;
    lemma_powers();
    lemma2_to64();
    lemma_pow2_adds(37, FINEST as nat);
    lemma_pow2_unfold(1112);
    assert(pow2(37) == 0x20_0000_0000) by {
        lemma2_to64_rest();
    }
    assert(whole * one >= 0) by (nonlinear_arith)
        requires
            whole >= 0,
            one >= 0,
    ;
    lemma_sum_is_finite(a, q, 1112);
    lemma_sum_is_close(a, q);
    let exact = whole * one + v;
    assert(exact <= (whole + 1) * one) by (nonlinear_arith)
        requires
            exact == whole * one + v,
            v <= one,
    ;
    assert(seconds.value() >= 0);
    assert(seconds.value() <= 2 * exact);
    assert(differ_by(seconds.value() * 1_000_000_000, exact * 1_000_000_000, 2_000_000_000 * exact));
    assert(nanoseconds * one == 1_000_000_000 * (whole * one) + rest * one) by (nonlinear_arith)
        requires
            nanoseconds == 1_000_000_000 * whole + rest,
    ;
    assert((nanoseconds + 1_000_000_000) * one >= 1_000_000_000 * ((whole + 1) * one))
        by (nonlinear_arith)
        requires
            nanoseconds >= 1_000_000_000 * whole,
            one >= 0,
    ;
    assert((whole + 1) * one >= one) by (nonlinear_arith)
        requires
            one >= 0,
            whole >= 0,
    ;
}

/// Whether a number is so much in so many nanoseconds, per second and but for rounding.
pub open spec fn is_rate(rate: Double, moved: nat, nanoseconds: nat) -> bool {
    let one = pow2(FINEST as nat);
    &&& rate.finite()
    &&& rate.value() >= 0
    &&& differ_by(
        rate.value() * nanoseconds,
        (moved * 1_000_000_000 * one) as int,
        16 * (rate.value() + HIDDEN) * (nanoseconds + 1_000_000_000),
    )
}

/// What has moved on in a time, over its seconds, is a rate per second.
pub proof fn lemma_rate_per_second(moved: nat, nanoseconds: nat)
    requires
        moved <= u64::MAX,
        0 < nanoseconds <= u64::MAX,
        Double::integer(moved).quotient(Double::seconds(nanoseconds)).finite(),
    ensures
        is_rate(
            Double::integer(moved).quotient(Double::seconds(nanoseconds)),
            moved,
            nanoseconds,
        ),
{
    let one = pow2(FINEST as nat);
    let a = Double::integer(moved);
    let s = Double::seconds(nanoseconds);
    let rate = a.quotient(s);
    lemma_integers(moved, moved);
    lemma_integer_is_close(moved);
    lemma_seconds_are_nanoseconds(nanoseconds);
    lemma_seconds(nanoseconds);
    lemma_pow2_pos(1044);
    lemma_quotient_is_rounded(a, s);
    lemma_powers();
    lemma_pow2_strictly_increases(52, FINEST as nat);
    assert(rate.value() >= 0) by {
        let size = nearest(units(a.size()) * one, units(s.size()));
        assert(units(0) == 0);
        lemma_rounded(units(a.size()) * one, units(s.size()));
        assert(rate == Double::signed_size(false, size));
        assert(rate.size() == size);
        lemma_signed_value(false, size);
    }
    lemma_rate_error(
        moved as int,
        nanoseconds as int,
        a.value(),
        s.value(),
        rate.value(),
        one as int,
        1_000_000_000,
    );
    assert(moved * 1_000_000_000 * one == moved * one * 1_000_000_000) by (nonlinear_arith);
}

proof fn lemma_rate_error(
    moved: int,
    ns: int,
    a: int,
    s: int,
    rate: int,
    one: int,
    billion: int,
)
    requires
        moved >= 0,
        ns > 0,
        one > 0,
        billion > 0,
        a >= 0,
        s > 0,
        rate >= 0,
        is_close(a, moved * one),
        differ_by(s * billion, ns * one, 4 * ((ns + billion) * one)),
        is_rounded(rate, a * one, s as nat),
    ensures
        differ_by(
            rate * ns,
            moved * one * billion,
            16 * (rate + HIDDEN) * (ns + billion),
        ),
{
    let h = HIDDEN as int;
    let span = (ns + billion) * one;
    let r = rate + h;
    let area = r * span;
    assert(span >= ns * one) by (nonlinear_arith)
        requires
            span == (ns + billion) * one,
            billion > 0,
            one > 0,
    ;
    assert(ns * one > 0) by (nonlinear_arith)
        requires
            ns > 0,
            one > 0,
    ;
    assert(s * billion <= 2 * span);
    // The time.
    lemma_error_times(s * billion, ns * one, 4 * span, rate);
    assert((4 * span) * rate <= 4 * area) by (nonlinear_arith)
        requires
            area == r * span,
            rate <= r,
            span >= 0,
    ;
    // The quotient.
    let first = rate * s;
    let second = a * one;
    assert(differ_by(first, second, r * s));
    lemma_error_times(first, second, r * s, billion);
    assert((r * s) * billion <= 2 * area) by (nonlinear_arith)
        requires
            area == r * span,
            s * billion <= 2 * span,
            r >= 0,
    ;
    assert((s * billion) * rate == first * billion) by (nonlinear_arith)
        requires
            first == rate * s,
    ;
    // The amount.
    assert(differ_by(a, moved * one, a));
    lemma_error_times(a, moved * one, a, one);
    lemma_error_times(a * one, moved * one * one, a * one, billion);
    assert(first <= r * s) by (nonlinear_arith)
        requires
            first == rate * s,
            rate <= r,
            s > 0,
    ;
    assert(r * s >= 0) by (nonlinear_arith)
        requires
            r >= 0,
            s > 0,
    ;
    assert(second <= 2 * (r * s));
    assert((a * one) * billion <= 4 * area) by (nonlinear_arith)
        requires
            a * one <= 2 * (r * s),
            (r * s) * billion <= 2 * area,
            billion > 0,
    ;
    assert((ns * one) * rate == (rate * ns) * one) by (nonlinear_arith);
    assert(moved * one * one * billion == (moved * one * billion) * one) by (nonlinear_arith);
    let parts = 16 * r * (ns + billion);
    assert(parts * one == 16 * area) by (nonlinear_arith)
        requires
            parts == 16 * r * (ns + billion),
            area == r * span,
            span == (ns + billion) * one,
    ;
    assert(area >= 0) by (nonlinear_arith)
        requires
            area == r * span,
            r >= 0,
            span >= 0,
    ;
    assert(differ_by((rate * ns) * one, (moved * one * billion) * one, parts * one));
    lemma_error_over(rate * ns, moved * one * billion, parts, one);
}

/// The quotient of two integers, as many times as the second of them, is the first, but for
/// rounding.
pub proof fn lemma_quotient_of_integers(n: nat, d: nat)
    requires
        n <= u64::MAX,
        0 < d < PRECISION,
    ensures
        ({
            let q = Double::integer(n).quotient(Double::integer(d));
            &&& q.finite()
            &&& q.value() >= 0
            &&& differ_by(
                q.value() * d,
                (n * pow2(FINEST as nat)) as int,
                4 * (q.value() + HIDDEN) * d,
            )
        }),
{
    let one = pow2(FINEST as nat);
    let a = Double::integer(n);
    let q = a.quotient(Double::integer(d));
    lemma_integers(n, n);
    lemma_integer_is_close(n);
    lemma_parts_of_a_number(a, d);
    lemma_quotient_is_finite(a, d);
    lemma_small_integer(d);
    assert(q.value() >= 0) by {
        let y = units(Double::integer(d).size());
        let size = nearest(units(a.size()) * one, y);
        assert(units(0) == 0);
        lemma_rounded(units(a.size()) * one, y);
        assert(q == Double::signed_size(false, size));
        assert(q.size() == size);
        lemma_signed_value(false, size);
    }
    let v = q.value();
    let parts = (v + HIDDEN) * d;
    assert(v * d <= parts) by (nonlinear_arith)
        requires
            parts == (v + HIDDEN) * d,
            d > 0,
    ;
    assert(parts >= 0) by (nonlinear_arith)
        requires
            parts == (v + HIDDEN) * d,
            v >= 0,
            d > 0,
    ;
    assert(4 * (v + HIDDEN) * d == 4 * parts) by (nonlinear_arith)
        requires
            parts == (v + HIDDEN) * d,
    ;
}

/// Whether a number is the share of a time that so many ticks of a clock take up, in percent
/// and but for rounding.
pub open spec fn is_load(share: Double, ticks: nat, per_second: nat, nanoseconds: nat) -> bool {
    let one = pow2(FINEST as nat);
    &&& share.finite()
    &&& share.value() >= 0
    &&& differ_by(
        share.value() * nanoseconds * per_second,
        (100 * ticks * 1_000_000_000 * one) as int,
        64 * (share.value() * (nanoseconds + 1_000_000_000) * per_second),
    )
}

proof fn lemma_load_error(
    ticks: int,
    hz: int,
    ns: int,
    a: int,
    s: int,
    used: int,
    part: int,
    share: int,
    one: int,
    billion: int,
)
    requires
        ticks >= 0,
        hz > 0,
        ns > 0,
        one > 0,
        billion > 0,
        a >= 0,
        s > 0,
        used >= 0,
        part >= 0,
        share >= 0,
        is_close(a, ticks * one),
        differ_by(used * hz, a, 2 * (used * hz)),
        differ_by(part * s, used * one, 2 * (part * s)),
        differ_by(share, 100 * part, 2 * share),
        differ_by(s * billion, ns * one, 4 * ((ns + billion) * one)),
    ensures
        differ_by(
            share * ns * hz,
            100 * ticks * billion * one,
            64 * (share * (ns + billion) * hz),
        ),
{
    let span = (ns + billion) * one;
    assert(span >= ns * one) by (nonlinear_arith)
        requires
            span == (ns + billion) * one,
            billion > 0,
            one > 0,
    ;
    assert(ns * one > 0) by (nonlinear_arith)
        requires
            ns > 0,
            one > 0,
    ;
    let time = s * billion;
    assert(time <= 2 * span);
    assert(time > 0) by (nonlinear_arith)
        requires
            time == s * billion,
            s > 0,
            billion > 0,
    ;
    // From the share to a hundred times the part.
    assert(100 * part <= 2 * share);
    let k = time * hz;
    assert(k > 0) by (nonlinear_arith)
        requires
            k == time * hz,
            time > 0,
            hz > 0,
    ;
    let unit = share * k;
    assert(unit >= 0) by (nonlinear_arith)
        requires
            unit == share * k,
            share >= 0,
            k > 0,
    ;
    lemma_error_times(share, 100 * part, 2 * share, k);
    assert((2 * share) * k == 2 * unit) by (nonlinear_arith)
        requires
            unit == share * k,
    ;
    // From the part to what was used.
    let m = billion * hz;
    assert(m > 0) by (nonlinear_arith)
        requires
            m == billion * hz,
            billion > 0,
            hz > 0,
    ;
    let ps = part * s;
    lemma_error_times(ps, used * one, 2 * ps, 100 * m);
    assert(ps * (100 * m) == (100 * part) * k) by (nonlinear_arith)
        requires
            ps == part * s,
            m == billion * hz,
            k == s * billion * hz,
    ;
    assert((100 * part) * k <= 2 * unit) by (nonlinear_arith)
        requires
            100 * part <= 2 * share,
            unit == share * k,
            k > 0,
    ;
    assert((2 * ps) * (100 * m) == 2 * (ps * (100 * m))) by (nonlinear_arith);
    let first = (used * one) * (100 * m);
    assert(differ_by(ps * (100 * m), first, 4 * unit));
    assert(first <= 4 * unit) by {
        assert(first <= ps * (100 * m) + 1 * unit || unit == 0);
    }
    // From what was used to the ticks.
    let n = 100 * billion * one;
    assert(n > 0) by (nonlinear_arith)
        requires
            n == 100 * billion * one,
            billion > 0,
            one > 0,
    ;
    let uh = used * hz;
    lemma_error_times(uh, a, 2 * uh, n);
    assert(uh * n == first) by (nonlinear_arith)
        requires
            uh == used * hz,
            n == 100 * billion * one,
            m == billion * hz,
            first == (used * one) * (100 * m),
    ;
    assert((2 * uh) * n == 2 * first) by (nonlinear_arith)
        requires
            uh * n == first,
    ;
    let second = a * n;
    assert(differ_by(first, second, 8 * unit));
    assert(second <= 8 * unit) by {
        assert(second <= first + 1 * unit || unit == 0);
    }
    assert(differ_by(a, ticks * one, a));
    lemma_error_times(a, ticks * one, a, n);
    let third = ticks * one * n;
    assert(differ_by(second, third, 8 * unit));
    // The time.
    lemma_error_times(time, ns * one, 4 * span, share);
    let area = span * share;
    assert(unit <= 2 * (area * hz)) by (nonlinear_arith)
        requires
            unit == share * (time * hz),
            time <= 2 * span,
            area == span * share,
            share >= 0,
            hz > 0,
    ;
    lemma_error_times(time * share, (ns * one) * share, (4 * span) * share, hz);
    assert((time * share) * hz == unit) by (nonlinear_arith)
        requires
            unit == share * (time * hz),
    ;
    assert(((4 * span) * share) * hz == 4 * (area * hz)) by (nonlinear_arith)
        requires
            area == span * share,
    ;
    let start = ((ns * one) * share) * hz;
    assert(differ_by(start, unit, 4 * (area * hz)));
    assert(differ_by(unit, (100 * part) * k, 2 * unit));
    assert(differ_by(start, third, 64 * (area * hz)));
    // Without the unit.
    let parts = 64 * (share * (ns + billion) * hz);
    assert(start == (share * ns * hz) * one) by (nonlinear_arith)
        requires
            start == ((ns * one) * share) * hz,
    ;
    assert(third == (100 * ticks * billion * one) * one) by (nonlinear_arith)
        requires
            third == ticks * one * n,
            n == 100 * billion * one,
    ;
    assert(parts * one == 64 * (area * hz)) by (nonlinear_arith)
        requires
            parts == 64 * (share * (ns + billion) * hz),
            area == span * share,
            span == (ns + billion) * one,
    ;
    lemma_error_over(share * ns * hz, 100 * ticks * billion * one, parts, one);
}

/// Ticks over their number per second, over the seconds that have passed, times a hundred, is
/// the share of the time that they take up.
pub proof fn lemma_load(ticks: nat, per_second: nat, nanoseconds: nat)
    requires
        ticks <= u64::MAX,
        0 < per_second < PRECISION,
        0 < nanoseconds <= u64::MAX,
        Double::integer(ticks).quotient(Double::integer(per_second)).quotient(
            Double::seconds(nanoseconds),
        ).product(Double::integer(100)).finite(),
    ensures
        is_load(
            Double::integer(ticks).quotient(Double::integer(per_second)).quotient(
                Double::seconds(nanoseconds),
            ).product(Double::integer(100)),
            ticks,
            per_second,
            nanoseconds,
        ),
{
    let one = pow2(FINEST as nat);
    let a = Double::integer(ticks);
    let b = Double::integer(per_second);
    let s = Double::seconds(nanoseconds);
    let h = Double::integer(100);
    let used = a.quotient(b);
    let part = used.quotient(s);
    let share = part.product(h);
    lemma_powers();
    lemma2_to64();
    lemma2_to64_rest();
    lemma_pow2_strictly_increases(52, FINEST as nat);
    lemma_integers(ticks, ticks);
    lemma_integer_is_close(ticks);
    lemma_small_integer(per_second);
    lemma_small_integer(100);
    lemma_seconds_are_nanoseconds(nanoseconds);
    lemma_seconds(nanoseconds);
    lemma_pow2_pos(1044);
    lemma_quotient_of_integers(ticks, per_second);
    lemma_parts_of_a_number(a, per_second);
    lemma_load_is_finite(ticks, per_second, nanoseconds);
    lemma_quotient_is_rounded(used, s);
    lemma_product_is_rounded(part, h);
    let v = share.value();
    let w = part.value();
    let u = used.value();
    assert(w * h.value() == (100 * w) * one) by (nonlinear_arith)
        requires
            h.value() == 100 * one,
    ;
    lemma_error_over(v, 100 * w, (v + HIDDEN) as int, one as int);
    if ticks > 0 {
        assert((u + HIDDEN) * per_second <= 2 * (u * per_second)) by (nonlinear_arith)
            requires
                u >= HIDDEN,
                per_second > 0,
        ;
        let t = s.value();
        assert((w + HIDDEN) * t <= 2 * (w * t)) by (nonlinear_arith)
            requires
                w >= HIDDEN,
                t > 0,
        ;
        assert(v >= HIDDEN);
    } else {
        assert(a.value() == 0);
        assert(u == 0 && w == 0 && v == 0);
        assert(u * per_second == 0) by (nonlinear_arith)
            requires
                u == 0,
        ;
        assert(u * one == 0) by (nonlinear_arith)
            requires
                u == 0,
        ;
        assert(w * s.value() == 0) by (nonlinear_arith)
            requires
                w == 0,
        ;
    }
    lemma_load_error(
        ticks as int,
        per_second as int,
        nanoseconds as int,
        a.value(),
        s.value(),
        u,
        w,
        v,
        one as int,
        1_000_000_000,
    );
}

/// The steps on the way to a share are amounts, and not so small that rounding counts.
proof fn lemma_load_is_finite(ticks: nat, per_second: nat, nanoseconds: nat)
    requires
        ticks <= u64::MAX,
        0 < per_second < PRECISION,
        0 < nanoseconds <= u64::MAX,
    ensures
        ({
            let used = Double::integer(ticks).quotient(Double::integer(per_second));
            let part = used.quotient(Double::seconds(nanoseconds));
            let share = part.product(Double::integer(100));
            &&& is_amount(used)
            &&& is_amount(part)
            &&& is_amount(share)
            &&& ticks > 0 ==> used.value() >= HIDDEN && part.value() >= HIDDEN && share.value()
                >= HIDDEN
            &&& ticks == 0 ==> used.value() == 0 && part.value() == 0 && share.value() == 0
        }),
{
    let a = Double::integer(ticks);
    let b = Double::integer(per_second);
    let s = Double::seconds(nanoseconds);
    let h = Double::integer(100);
    let used = a.quotient(b);
    let part = used.quotient(s);
    lemma_powers();
    lemma2_to64();
    lemma2_to64_rest();
    lemma_integer_between(ticks, 0, 64);
    lemma_integer_between(per_second, 0, 53);
    lemma_integer_between(100, 6, 7);
    lemma_seconds(nanoseconds);
    lemma_quotient_at_most(a, b, 1138, 1074, 1138);
    lemma_quotient_at_most(used, s, 1138, 1044, 1168);
    lemma_product_at_most(part, h, 1168, 1081, 1175);
    lemma_pow2_pos(1044);
    lemma_pow2_pos(1074);
    if ticks > 0 {
        lemma_quotient_at_least(a, b, 1074, 1127, 1021);
        lemma_pow2_strictly_increases(52, 1021);
        lemma_quotient_at_least(used, s, 1021, 1110, 985);
        lemma_pow2_strictly_increases(52, 985);
        lemma_product_with_hundred(part);
    } else {
        let one = pow2(FINEST as nat);
        assert(units(0) == 0);
        lemma_integers(0, 0);
        assert(0 * one == 0) by (nonlinear_arith);
        lemma_nearest_at_most(0, units(b.size()), 0);
        assert(used.size() == 0);
        lemma_nearest_at_most(0, units(s.size()), 0);
        assert(part.size() == 0);
        let y = units(h.size());
        assert(0 * y == 0) by (nonlinear_arith);
        lemma_pow2_pos(FINEST as nat);
        lemma_nearest_at_most(0, one, 0);
        assert(part.product(h).size() == 0);
    }
}

/// A hundred times an amount is no less than the amount.
proof fn lemma_product_with_hundred(a: Double)
    requires
        is_amount(a),
        is_amount(a.product(Double::integer(100))),
    ensures
        a.value() <= a.product(Double::integer(100)).value(),
{
    let one = pow2(FINEST as nat);
    lemma_small_integer(100);
    lemma_pow2_pos(FINEST as nat);
    let x = units(a.size());
    let y = units(Double::integer(100).size());
    assert(x * one <= x * y) by (nonlinear_arith)
        requires
            one <= y,
            x >= 0,
    ;
    lemma_nearest_at_least(x * y, one, a.size());
    lemma_rounded(x * y, one);
    assert(a.product(Double::integer(100)).size() == nearest(x * y, one));
}

} // verus!
